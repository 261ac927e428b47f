//! Building one routing tile of a hierarchy level from the road graph.
//!
//! Each node of the level belongs to the one tile its coordinates fall in
//! (its canonical tile) and has a local index there. An edge is stored in
//! the tile of its source node: as a regular edge when its target is in the
//! same tile, else as a cross-tile edge, which also marks the source node
//! as a boundary node. A node keeps at most 255 regular edges. Road names
//! get ids into a table of at most 255 names, in the order they are first
//! needed: cross-tile edges first, then regular edges node by node.
use vstd::prelude::*;

use crate::routing::types::{
    class_speed, CrossTileEdge, EdgeFlags, HierarchyLevel, NodeFlags, RoadClass, RoutingEdge,
    RoutingNode, RoutingTile,
};
use crate::text::str_eq;

verus! {

/// An edge of the road graph, as seen from the tile of its source node.
#[derive(Debug, Clone)]
pub struct TileEdgeInput {
    /// Local index of the source node in this tile.
    pub from: u32,
    /// Canonical tile of the target node.
    pub to_tile_x: i32,
    pub to_tile_y: i32,
    /// Local index of the target node in its tile.
    pub to_idx: u32,
    /// Length in centimeters.
    pub distance_cm: u32,
    pub road_class: RoadClass,
    pub speed_kmh: u8,
    pub oneway: bool,
    pub name: Option<String>,
}

/// The edge stays inside tile (`tx`, `ty`).
pub open spec fn stays_in(e: TileEdgeInput, tx: i32, ty: i32) -> bool {
    e.to_tile_x == tx && e.to_tile_y == ty
}

/// The regular (same-tile) edges leaving local node `i`, in input order.
pub open spec fn local_from(es: Seq<TileEdgeInput>, tx: i32, ty: i32, i: int) -> Seq<TileEdgeInput>
    decreases es.len(),
{
    if es.len() == 0 {
        Seq::empty()
    } else {
        let r = local_from(es.drop_last(), tx, ty, i);
        if stays_in(es.last(), tx, ty) && es.last().from == i {
            r.push(es.last())
        } else {
            r
        }
    }
}

/// The cross-tile edges, in input order.
pub open spec fn cross_of(es: Seq<TileEdgeInput>, tx: i32, ty: i32) -> Seq<TileEdgeInput>
    decreases es.len(),
{
    if es.len() == 0 {
        Seq::empty()
    } else {
        let r = cross_of(es.drop_last(), tx, ty);
        if !stays_in(es.last(), tx, ty) {
            r.push(es.last())
        } else {
            r
        }
    }
}

/// At most the first 255 elements.
pub open spec fn cap255<T>(s: Seq<T>) -> Seq<T> {
    if s.len() > 255 {
        s.subrange(0, 255)
    } else {
        s
    }
}

/// The regular edges kept for local nodes `0..n`, node by node.
pub open spec fn kept_edges(es: Seq<TileEdgeInput>, tx: i32, ty: i32, n: int) -> Seq<TileEdgeInput>
    decreases n,
{
    if n <= 0 {
        Seq::empty()
    } else {
        kept_edges(es, tx, ty, n - 1) + cap255(local_from(es, tx, ty, n - 1))
    }
}

/// The name of an edge, as characters.
pub open spec fn name_view(n: Option<String>) -> Option<Seq<char>> {
    match n {
        Some(s) => Some(s@),
        None => None,
    }
}

/// The names of a list of edges, in order.
pub open spec fn edge_names(es: Seq<TileEdgeInput>) -> Seq<Option<Seq<char>>> {
    Seq::new(es.len(), |k: int| name_view(es[k].name))
}

/// The name table after names are requested in order: a new name is
/// appended while the table holds fewer than 255 names.
pub open spec fn name_table(reqs: Seq<Option<Seq<char>>>) -> Seq<Seq<char>>
    decreases reqs.len(),
{
    if reqs.len() == 0 {
        Seq::empty()
    } else {
        let t = name_table(reqs.drop_last());
        match reqs.last() {
            Some(n) => if !t.contains(n) && t.len() < 255 {
                t.push(n)
            } else {
                t
            },
            None => t,
        }
    }
}

/// The id of a name in a table: its position plus one, 0 when unnamed or
/// not in the table.
pub open spec fn name_id_in(t: Seq<Seq<char>>, n: Option<Seq<char>>) -> u8 {
    match n {
        Some(s) => if t.contains(s) {
            (t.index_of(s) + 1) as u8
        } else {
            0
        },
        None => 0,
    }
}

/// The name table of a tile built from `es` with `n` local nodes.
pub open spec fn tile_names(es: Seq<TileEdgeInput>, tx: i32, ty: i32, n: int) -> Seq<Seq<char>> {
    name_table(edge_names(cross_of(es, tx, ty)) + edge_names(kept_edges(es, tx, ty, n)))
}

/// The regular edge stored for an input edge.
pub open spec fn routing_edge_of(e: TileEdgeInput, t: Seq<Seq<char>>) -> RoutingEdge {
    RoutingEdge {
        target: e.to_idx,
        distance_cm: e.distance_cm,
        speed_kmh: e.speed_kmh,
        road_class: e.road_class,
        flags: EdgeFlags(
            if e.oneway {
                1
            } else {
                0
            },
        ),
        name_id: name_id_in(t, name_view(e.name)),
    }
}

/// The cross-tile edge stored for an input edge.
pub open spec fn cross_edge_of(e: TileEdgeInput, t: Seq<Seq<char>>) -> CrossTileEdge {
    CrossTileEdge {
        source: e.from,
        target_tile_x: e.to_tile_x,
        target_tile_y: e.to_tile_y,
        target_node: e.to_idx,
        distance_cm: e.distance_cm,
        speed_kmh: e.speed_kmh,
        road_class: e.road_class,
        flags: EdgeFlags(
            if e.oneway {
                1
            } else {
                0
            },
        ),
        name_id: name_id_in(t, name_view(e.name)),
    }
}

/// Whether local node `i` has a cross-tile edge.
pub open spec fn is_boundary(es: Seq<TileEdgeInput>, tx: i32, ty: i32, i: int) -> bool {
    exists|k: int| 0 <= k < es.len() && !stays_in(#[trigger] es[k], tx, ty) && es[k].from == i
}

/// The edges at the given positions of `es`.
pub open spec fn at_positions(es: Seq<TileEdgeInput>, ix: Seq<usize>) -> Seq<TileEdgeInput> {
    Seq::new(ix.len(), |k: int| es[ix[k] as int])
}

proof fn lemma_local_from_step(es: Seq<TileEdgeInput>, tx: i32, ty: i32, i: int, j: int)
    requires
        0 <= j < es.len(),
    ensures
        local_from(es.subrange(0, j + 1), tx, ty, i) == (if stays_in(es[j], tx, ty) && es[j].from
            == i {
            local_from(es.subrange(0, j), tx, ty, i).push(es[j])
        } else {
            local_from(es.subrange(0, j), tx, ty, i)
        }),
{
    assert(es.subrange(0, j + 1).drop_last() =~= es.subrange(0, j));
}

proof fn lemma_cross_of_step(es: Seq<TileEdgeInput>, tx: i32, ty: i32, j: int)
    requires
        0 <= j < es.len(),
    ensures
        cross_of(es.subrange(0, j + 1), tx, ty) == (if !stays_in(es[j], tx, ty) {
            cross_of(es.subrange(0, j), tx, ty).push(es[j])
        } else {
            cross_of(es.subrange(0, j), tx, ty)
        }),
{
    assert(es.subrange(0, j + 1).drop_last() =~= es.subrange(0, j));
}

/// Positions of the regular edges of each local node, in input order.
fn group_local(es: &Vec<TileEdgeInput>, tx: i32, ty: i32, n: usize) -> (r: Vec<Vec<usize>>)
    requires
        forall|k: int| 0 <= k < es@.len() ==> (#[trigger] es@[k].from as int) < n,
    ensures
        r@.len() == n,
        forall|i: int|
            0 <= i < n ==> at_positions(es@, #[trigger] r@[i]@) == local_from(es@, tx, ty, i),
        forall|i: int, k: int|
            0 <= i < n && 0 <= k < r@[i]@.len() ==> (#[trigger] r@[i]@[k] as int) < es@.len(),
{
    let mut buckets: Vec<Vec<usize>> = Vec::new();
    let mut i: usize = 0;
    while i < n
        invariant
            i <= n,
            buckets@.len() == i,
            forall|a: int| 0 <= a < i ==> (#[trigger] buckets@[a])@.len() == 0,
        decreases n - i,
    {
        buckets.push(Vec::new());
        i = i + 1;
    }
    assert forall|a: int| 0 <= a < n implies at_positions(es@, #[trigger] buckets@[a]@) == local_from(
        es@.subrange(0, 0),
        tx,
        ty,
        a,
    ) by {
        assert(at_positions(es@, buckets@[a]@) =~= Seq::<TileEdgeInput>::empty());
    }
    let mut j: usize = 0;
    while j < es.len()
        invariant
            j <= es@.len(),
            buckets@.len() == n,
            forall|k: int| 0 <= k < es@.len() ==> (#[trigger] es@[k].from as int) < n,
            forall|a: int|
                0 <= a < n ==> at_positions(es@, #[trigger] buckets@[a]@) == local_from(
                    es@.subrange(0, j as int),
                    tx,
                    ty,
                    a,
                ),
            forall|a: int, k: int|
                0 <= a < n && 0 <= k < buckets@[a]@.len() ==> (#[trigger] buckets@[a]@[k] as int) < j,
        decreases es@.len() - j,
    {
        let e = &es[j];
        let ghost old_b = buckets@;
        if e.to_tile_x == tx && e.to_tile_y == ty {
            let f = e.from as usize;
            buckets[f].push(j);
        }
        proof {
            assert forall|a: int| 0 <= a < n implies at_positions(es@, #[trigger] buckets@[a]@)
                == local_from(es@.subrange(0, j + 1), tx, ty, a) by {
                lemma_local_from_step(es@, tx, ty, a, j as int);
                if stays_in(es@[j as int], tx, ty) && es@[j as int].from == a {
                    assert(at_positions(es@, buckets@[a]@) =~= at_positions(es@, old_b[a]@).push(
                        es@[j as int],
                    ));
                } else {
                    assert(buckets@[a] == old_b[a]);
                }
            }
            assert forall|a: int, k: int|
                0 <= a < n && 0 <= k < buckets@[a]@.len() implies (#[trigger] buckets@[a]@[k] as int)
                < j + 1 by {
                if k < old_b[a]@.len() {
                    assert(buckets@[a]@[k] == old_b[a]@[k]);
                }
            }
        }
        j = j + 1;
    }
    assert(es@.subrange(0, j as int) =~= es@);
    buckets
}

/// The names of a table, as characters.
pub open spec fn views(t: Seq<String>) -> Seq<Seq<char>> {
    Seq::new(t.len(), |k: int| t[k]@)
}

proof fn lemma_name_table(reqs: Seq<Option<Seq<char>>>)
    ensures
        name_table(reqs).no_duplicates(),
        name_table(reqs).len() <= 255,
    decreases reqs.len(),
{
    if reqs.len() > 0 {
        lemma_name_table(reqs.drop_last());
    }
}

/// The position of a name in the table, if it is there.
fn find_name(table: &Vec<String>, s: &str) -> (r: Option<usize>)
    ensures
        match r {
            Some(k) => (k as int) < table@.len() && views(table@)[k as int] == s@,
            None => !views(table@).contains(s@),
        },
{
    let mut k: usize = 0;
    while k < table.len()
        invariant
            k <= table@.len(),
            forall|j: int| 0 <= j < k ==> table@[j]@ != s@,
        decreases table@.len() - k,
    {
        if str_eq(table[k].as_str(), s) {
            return Some(k);
        }
        k = k + 1;
    }
    proof {
        if views(table@).contains(s@) {
            let j = choose|j: int| 0 <= j < views(table@).len() && views(table@)[j] == s@;
            assert(table@[j]@ == s@);
        }
    }
    None
}

/// Requests a name: a new name joins the table while it has room.
fn request_name(table: &mut Vec<String>, name: &Option<String>)
    ensures
        views(final(table)@) == (match name_view(*name) {
            Some(n) => if !views(old(table)@).contains(n) && views(old(table)@).len() < 255 {
                views(old(table)@).push(n)
            } else {
                views(old(table)@)
            },
            None => views(old(table)@),
        }),
{
    if let Some(n) = name {
        if find_name(table, n.as_str()).is_none() && table.len() < 255 {
            let c = n.clone();
            table.push(c);
            assert(views(table@) =~= views(old(table)@).push(n@));
            return;
        }
    }
}

/// The id of a name in the table.
fn name_id(table: &Vec<String>, name: &Option<String>) -> (r: u8)
    requires
        views(table@).no_duplicates(),
        table@.len() <= 255,
    ensures
        r == name_id_in(views(table@), name_view(*name)),
{
    match name {
        None => 0,
        Some(n) => match find_name(table, n.as_str()) {
            Some(k) => {
                proof {
                    let t = views(table@);
                    assert(t.contains(n@));
                    let j = t.index_of(n@);
                    assert(0 <= j < t.len() && t[j] == n@);
                    assert(j == k);
                }
                (k + 1) as u8
            },
            None => 0,
        },
    }
}

/// Builds the name table from the names of the edges at positions `first`
/// then at positions `second`.
fn build_names(es: &Vec<TileEdgeInput>, first: &Vec<usize>, second: &Vec<usize>) -> (r: Vec<String>)
    requires
        forall|k: int| 0 <= k < first@.len() ==> (#[trigger] first@[k] as int) < es@.len(),
        forall|k: int| 0 <= k < second@.len() ==> (#[trigger] second@[k] as int) < es@.len(),
    ensures
        views(r@) == name_table(
            edge_names(at_positions(es@, first@)) + edge_names(at_positions(es@, second@)),
        ),
{
    let mut table: Vec<String> = Vec::new();
    let ghost all = edge_names(at_positions(es@, first@)) + edge_names(at_positions(es@, second@));
    let mut k: usize = 0;
    assert(views(table@) =~= name_table(all.subrange(0, 0)));
    while k < first.len()
        invariant
            k <= first@.len(),
            forall|q: int| 0 <= q < first@.len() ==> (#[trigger] first@[q] as int) < es@.len(),
            all == edge_names(at_positions(es@, first@)) + edge_names(at_positions(es@, second@)),
            views(table@) == name_table(all.subrange(0, k as int)),
        decreases first@.len() - k,
    {
        request_name(&mut table, &es[first[k]].name);
        proof {
            assert(all.subrange(0, k + 1).drop_last() =~= all.subrange(0, k as int));
            assert(all.subrange(0, k + 1).last() == name_view(es@[first@[k as int] as int].name));
        }
        k = k + 1;
    }
    let mut m: usize = 0;
    while m < second.len()
        invariant
            m <= second@.len(),
            forall|q: int| 0 <= q < second@.len() ==> (#[trigger] second@[q] as int) < es@.len(),
            all == edge_names(at_positions(es@, first@)) + edge_names(at_positions(es@, second@)),
            views(table@) == name_table(all.subrange(0, (first@.len() + m) as int)),
        decreases second@.len() - m,
    {
        request_name(&mut table, &es[second[m]].name);
        proof {
            let c = (first@.len() + m) as int;
            assert(all.subrange(0, c + 1).drop_last() =~= all.subrange(0, c));
            assert(all.subrange(0, c + 1).last() == name_view(es@[second@[m as int] as int].name));
        }
        m = m + 1;
    }
    assert(all.subrange(0, (first@.len() + second@.len()) as int) =~= all);
    table
}

/// Positions of the cross-tile edges, in input order.
fn cross_positions(es: &Vec<TileEdgeInput>, tx: i32, ty: i32) -> (r: Vec<usize>)
    ensures
        at_positions(es@, r@) == cross_of(es@, tx, ty),
        forall|k: int| 0 <= k < r@.len() ==> (#[trigger] r@[k] as int) < es@.len(),
{
    let mut r: Vec<usize> = Vec::new();
    let mut j: usize = 0;
    assert(at_positions(es@, r@) =~= cross_of(es@.subrange(0, 0), tx, ty));
    while j < es.len()
        invariant
            j <= es@.len(),
            at_positions(es@, r@) == cross_of(es@.subrange(0, j as int), tx, ty),
            forall|k: int| 0 <= k < r@.len() ==> (#[trigger] r@[k] as int) < j,
        decreases es@.len() - j,
    {
        let ghost old_r = r@;
        proof {
            lemma_cross_of_step(es@, tx, ty, j as int);
        }
        if !(es[j].to_tile_x == tx && es[j].to_tile_y == ty) {
            r.push(j);
            assert(at_positions(es@, r@) =~= at_positions(es@, old_r).push(es@[j as int]));
        }
        j = j + 1;
    }
    assert(es@.subrange(0, j as int) =~= es@);
    r
}

/// Positions of the kept regular edges, node by node, with each node's
/// first edge and edge count.
fn kept_positions(es: &Vec<TileEdgeInput>, tx: i32, ty: i32, n: usize, buckets: &Vec<Vec<usize>>) -> (r: (
    Vec<usize>,
    Vec<(u32, u8)>,
))
    requires
        buckets@.len() == n,
        forall|i: int| 0 <= i < n ==> at_positions(es@, #[trigger] buckets@[i]@) == local_from(es@, tx, ty, i),
        forall|i: int, k: int|
            0 <= i < n && 0 <= k < buckets@[i]@.len() ==> (#[trigger] buckets@[i]@[k] as int) < es@.len(),
    ensures
        at_positions(es@, r.0@) == kept_edges(es@, tx, ty, n as int),
        forall|k: int| 0 <= k < r.0@.len() ==> (#[trigger] r.0@[k] as int) < es@.len(),
        r.1@.len() == n,
        forall|i: int|
            0 <= i < n ==> (#[trigger] r.1@[i]) == (
                kept_edges(es@, tx, ty, i).len() as u32,
                cap255(local_from(es@, tx, ty, i)).len() as u8,
            ),
{
    let mut kept: Vec<usize> = Vec::new();
    let mut blocks: Vec<(u32, u8)> = Vec::new();
    let mut i: usize = 0;
    assert(at_positions(es@, kept@) =~= kept_edges(es@, tx, ty, 0));
    while i < n
        invariant
            i <= n,
            buckets@.len() == n,
            forall|a: int| 0 <= a < n ==> at_positions(es@, #[trigger] buckets@[a]@) == local_from(es@, tx, ty, a),
            forall|a: int, k: int|
                0 <= a < n && 0 <= k < buckets@[a]@.len() ==> (#[trigger] buckets@[a]@[k] as int) < es@.len(),
            at_positions(es@, kept@) == kept_edges(es@, tx, ty, i as int),
            forall|k: int| 0 <= k < kept@.len() ==> (#[trigger] kept@[k] as int) < es@.len(),
            blocks@.len() == i,
            forall|a: int|
                0 <= a < i ==> (#[trigger] blocks@[a]) == (
                    kept_edges(es@, tx, ty, a).len() as u32,
                    cap255(local_from(es@, tx, ty, a)).len() as u8,
                ),
        decreases n - i,
    {
        let b = &buckets[i];
        let count = if b.len() > 255 {
            255
        } else {
            b.len()
        };
        let first = kept.len() as u32;
        let ghost before = kept@;
        let mut k: usize = 0;
        while k < count
            invariant
                k <= count,
                count <= b@.len(),
                count == (if b@.len() > 255 { 255 } else { b@.len() as int }),
                forall|q: int| 0 <= q < b@.len() ==> (#[trigger] b@[q] as int) < es@.len(),
                forall|q: int| 0 <= q < before.len() ==> (#[trigger] before[q] as int) < es@.len(),
                kept@ == before + b@.subrange(0, k as int),
            decreases count - k,
        {
            kept.push(b[k]);
            k = k + 1;
            assert(kept@ =~= before + b@.subrange(0, k as int));
        }
        proof {
            assert(at_positions(es@, b@) == local_from(es@, tx, ty, i as int));
            assert(at_positions(es@, b@.subrange(0, count as int)) =~= cap255(
                local_from(es@, tx, ty, i as int),
            ));
            assert(at_positions(es@, kept@) =~= at_positions(es@, before) + at_positions(
                es@,
                b@.subrange(0, count as int),
            ));
            assert(kept_edges(es@, tx, ty, i + 1) == kept_edges(es@, tx, ty, i as int) + cap255(
                local_from(es@, tx, ty, i as int),
            ));
            assert(at_positions(es@, before).len() == before.len());
        }
        blocks.push((first, count as u8));
        i = i + 1;
    }
    (kept, blocks)
}

/// The boundary nodes of a tile: the local indices (as `u16`) of the nodes
/// with a cross-tile edge, in increasing order.
pub open spec fn boundary_list(es: Seq<TileEdgeInput>, tx: i32, ty: i32, n: int) -> Seq<u16>
    decreases n,
{
    if n <= 0 {
        Seq::empty()
    } else {
        let r = boundary_list(es, tx, ty, n - 1);
        if is_boundary(es, tx, ty, n - 1) {
            r.push((n - 1) as u16)
        } else {
            r
        }
    }
}

proof fn lemma_cross_sources(es: Seq<TileEdgeInput>, tx: i32, ty: i32, i: int)
    ensures
        (exists|j: int| 0 <= j < cross_of(es, tx, ty).len() && #[trigger] cross_of(es, tx, ty)[j].from == i)
            <==> is_boundary(es, tx, ty, i),
    decreases es.len(),
{
    if es.len() > 0 {
        let d = es.drop_last();
        lemma_cross_sources(d, tx, ty, i);
        let c = cross_of(es, tx, ty);
        let cd = cross_of(d, tx, ty);
        if is_boundary(es, tx, ty, i) {
            let k = choose|k: int| 0 <= k < es.len() && !stays_in(#[trigger] es[k], tx, ty) && es[k].from == i;
            if k < es.len() - 1 {
                assert(d[k] == es[k]);
                assert(is_boundary(d, tx, ty, i));
                let j = choose|j: int| 0 <= j < cd.len() && #[trigger] cd[j].from == i;
                assert(c[j] == cd[j]);
            } else {
                assert(c[c.len() - 1] == es.last());
            }
        }
        if exists|j: int| 0 <= j < c.len() && #[trigger] c[j].from == i {
            let j = choose|j: int| 0 <= j < c.len() && #[trigger] c[j].from == i;
            if j < cd.len() {
                assert(cd[j] == c[j]);
                let k = choose|k: int| 0 <= k < d.len() && !stays_in(#[trigger] d[k], tx, ty) && d[k].from == i;
                assert(es[k] == d[k]);
            } else {
                assert(c[j] == es.last());
                assert(!stays_in(es[es.len() - 1], tx, ty));
            }
        }
    }
}

/// Which local nodes have a cross-tile edge.
fn boundary_flags(es: &Vec<TileEdgeInput>, tx: i32, ty: i32, n: usize, cross: &Vec<usize>) -> (r: Vec<bool>)
    requires
        forall|k: int| 0 <= k < es@.len() ==> (#[trigger] es@[k].from as int) < n,
        at_positions(es@, cross@) == cross_of(es@, tx, ty),
        forall|k: int| 0 <= k < cross@.len() ==> (#[trigger] cross@[k] as int) < es@.len(),
    ensures
        r@.len() == n,
        forall|i: int| 0 <= i < n ==> #[trigger] r@[i] == is_boundary(es@, tx, ty, i),
{
    let mut flags: Vec<bool> = Vec::new();
    let mut i: usize = 0;
    while i < n
        invariant
            i <= n,
            flags@.len() == i,
            forall|a: int| 0 <= a < i ==> !(#[trigger] flags@[a]),
        decreases n - i,
    {
        flags.push(false);
        i = i + 1;
    }
    let ghost cs = cross_of(es@, tx, ty);
    let mut c: usize = 0;
    while c < cross.len()
        invariant
            c <= cross@.len(),
            flags@.len() == n,
            cs == cross_of(es@, tx, ty),
            at_positions(es@, cross@) == cs,
            forall|k: int| 0 <= k < es@.len() ==> (#[trigger] es@[k].from as int) < n,
            forall|k: int| 0 <= k < cross@.len() ==> (#[trigger] cross@[k] as int) < es@.len(),
            forall|a: int|
                0 <= a < n ==> #[trigger] flags@[a] == exists|j: int| 0 <= j < c && #[trigger] cs[j].from == a,
        decreases cross@.len() - c,
    {
        let f = es[cross[c]].from as usize;
        let ghost old_f = flags@;
        flags.set(f, true);
        proof {
            assert(cs[c as int] == es@[cross@[c as int] as int]);
            assert forall|a: int| 0 <= a < n implies #[trigger] flags@[a] == exists|j: int|
                0 <= j < c + 1 && #[trigger] cs[j].from == a by {
                if a == f {
                    assert(cs[c as int].from == a);
                } else {
                    assert(flags@[a] == old_f[a]);
                    if exists|j: int| 0 <= j < c + 1 && #[trigger] cs[j].from == a {
                        let j = choose|j: int| 0 <= j < c + 1 && #[trigger] cs[j].from == a;
                        assert(j != c);
                    }
                }
            }
        }
        c = c + 1;
    }
    proof {
        assert forall|a: int| 0 <= a < n implies #[trigger] flags@[a] == is_boundary(es@, tx, ty, a) by {
            lemma_cross_sources(es@, tx, ty, a);
        }
    }
    flags
}

proof fn lemma_kept_prefix(es: Seq<TileEdgeInput>, tx: i32, ty: i32, i: int, n: int)
    requires
        0 <= i <= n,
    ensures
        kept_edges(es, tx, ty, i).len() <= kept_edges(es, tx, ty, n).len(),
        kept_edges(es, tx, ty, n).subrange(0, kept_edges(es, tx, ty, i).len() as int) == kept_edges(
            es,
            tx,
            ty,
            i,
        ),
    decreases n - i,
{
    if i < n {
        lemma_kept_prefix(es, tx, ty, i, n - 1);
        let a = kept_edges(es, tx, ty, i);
        let b = kept_edges(es, tx, ty, n - 1);
        let c = kept_edges(es, tx, ty, n);
        assert(c == b + cap255(local_from(es, tx, ty, n - 1)));
        assert(c.subrange(0, a.len() as int) =~= b.subrange(0, a.len() as int));
    } else {
        assert(kept_edges(es, tx, ty, n).subrange(0, kept_edges(es, tx, ty, n).len() as int)
            =~= kept_edges(es, tx, ty, n));
    }
}

/// The regular edges of local node `i` in a built tile, as stored.
pub open spec fn stored_edges_of(es: Seq<TileEdgeInput>, tx: i32, ty: i32, n: int, i: int) -> Seq<
    RoutingEdge,
> {
    let kept = cap255(local_from(es, tx, ty, i));
    Seq::new(kept.len(), |k: int| routing_edge_of(kept[k], tile_names(es, tx, ty, n)))
}

/// In a tile built from `es`, when its edge array fits `u32` indices,
/// every node's edge block lies inside the edge array and holds exactly
/// that node's kept regular edges.
pub proof fn lemma_built_tile_edges(
    r: RoutingTile,
    nodes: Seq<(i32, i32)>,
    es: Seq<TileEdgeInput>,
)
    requires
        r.nodes@.len() == nodes.len(),
        forall|i: int|
            0 <= i < nodes.len() ==> (#[trigger] r.nodes@[i]).first_edge == kept_edges(
                es,
                r.tile_x,
                r.tile_y,
                i,
            ).len() as u32 && r.nodes@[i].edge_count == cap255(
                local_from(es, r.tile_x, r.tile_y, i),
            ).len() as u8,
        r.edges@.len() == kept_edges(es, r.tile_x, r.tile_y, nodes.len() as int).len(),
        forall|k: int|
            0 <= k < r.edges@.len() ==> #[trigger] r.edges@[k] == routing_edge_of(
                kept_edges(es, r.tile_x, r.tile_y, nodes.len() as int)[k],
                tile_names(es, r.tile_x, r.tile_y, nodes.len() as int),
            ),
        r.edges@.len() <= u32::MAX,
    ensures
        r.edge_blocks_wf(),
        forall|i: int|
            0 <= i < nodes.len() ==> #[trigger] r.out_edges(i) == stored_edges_of(
                es,
                r.tile_x,
                r.tile_y,
                nodes.len() as int,
                i,
            ),
{
    let n = nodes.len() as int;
    let all = kept_edges(es, r.tile_x, r.tile_y, n);
    assert forall|i: int| 0 <= i < n implies #[trigger] r.nodes@[i].first_edge <= r.edges@.len() by {
        lemma_kept_prefix(es, r.tile_x, r.tile_y, i, n);
    }
    assert forall|i: int| 0 <= i < n implies #[trigger] r.out_edges(i) == stored_edges_of(
        es,
        r.tile_x,
        r.tile_y,
        n,
        i,
    ) by {
        lemma_kept_prefix(es, r.tile_x, r.tile_y, i, n);
        lemma_kept_prefix(es, r.tile_x, r.tile_y, i + 1, n);
        let a = kept_edges(es, r.tile_x, r.tile_y, i);
        let b = kept_edges(es, r.tile_x, r.tile_y, i + 1);
        let kept = cap255(local_from(es, r.tile_x, r.tile_y, i));
        assert(b == a + kept);
        assert(kept.len() <= 255);
        assert(r.block_start(i) == a.len());
        assert(r.block_end(i) == b.len());
        assert forall|k: int| 0 <= k < kept.len() implies #[trigger] r.out_edges(i)[k] == routing_edge_of(
            kept[k],
            tile_names(es, r.tile_x, r.tile_y, n),
        ) by {
            assert(r.out_edges(i)[k] == r.edges@[a.len() + k]);
            assert(all.subrange(0, b.len() as int) == b);
            assert(all[a.len() + k] == b[a.len() + k]);
            assert(b[a.len() + k] == kept[k]);
        }
        assert(r.out_edges(i) =~= stored_edges_of(es, r.tile_x, r.tile_y, n, i));
    }
}

/// `r` is the routing tile at (`tile_x`, `tile_y`) of `level` built from
/// the coordinates of its nodes (by local index, in microdegrees) and the
/// graph edges whose source node is in it: nodes keep their order and
/// coordinates, each node's regular edges form one block of at most 255
/// edges in input order, edges to other tiles become cross-tile edges and
/// mark their source as a boundary node, and road names are numbered in
/// the order the edges are stored (cross-tile edges first).
pub open spec fn built_tile(
    r: RoutingTile,
    level: HierarchyLevel,
    tile_x: i32,
    tile_y: i32,
    nodes: Seq<(i32, i32)>,
    edges: Seq<TileEdgeInput>,
) -> bool {
    &&& r.level == level
    &&& r.tile_x == tile_x
    &&& r.tile_y == tile_y
    &&& r.nodes@.len() == nodes.len()
    &&& forall|i: int|
        0 <= i < nodes.len() ==> #[trigger] r.nodes@[i] == (RoutingNode {
            lat: nodes[i].0,
            lon: nodes[i].1,
            first_edge: kept_edges(edges, tile_x, tile_y, i).len() as u32,
            edge_count: cap255(local_from(edges, tile_x, tile_y, i)).len() as u8,
            flags: NodeFlags(
                if is_boundary(edges, tile_x, tile_y, i) {
                    1
                } else {
                    0
                },
            ),
        })
    &&& views(r.names@) == tile_names(edges, tile_x, tile_y, nodes.len() as int)
    &&& r.edges@.len() == kept_edges(edges, tile_x, tile_y, nodes.len() as int).len()
    &&& forall|k: int|
        0 <= k < r.edges@.len() ==> #[trigger] r.edges@[k] == routing_edge_of(
            kept_edges(edges, tile_x, tile_y, nodes.len() as int)[k],
            tile_names(edges, tile_x, tile_y, nodes.len() as int),
        )
    &&& r.cross_tile_edges@.len() == cross_of(edges, tile_x, tile_y).len()
    &&& forall|k: int|
        0 <= k < r.cross_tile_edges@.len() ==> #[trigger] r.cross_tile_edges@[k] == cross_edge_of(
            cross_of(edges, tile_x, tile_y)[k],
            tile_names(edges, tile_x, tile_y, nodes.len() as int),
        )
    &&& r.boundary_nodes@ == boundary_list(edges, tile_x, tile_y, nodes.len() as int)
}

/// Build the routing tile at (`tile_x`, `tile_y`) of `level`, from the
/// coordinates of its nodes (by local index, in microdegrees) and the
/// graph edges whose source node is in it.
pub fn build_routing_tile(
    level: HierarchyLevel,
    tile_x: i32,
    tile_y: i32,
    nodes: &Vec<(i32, i32)>,
    edges: &Vec<TileEdgeInput>,
) -> (r: RoutingTile)
    requires
        forall|k: int| 0 <= k < edges@.len() ==> (#[trigger] edges@[k].from as int) < nodes@.len(),
    ensures
        built_tile(r, level, tile_x, tile_y, nodes@, edges@),
        r.edges@.len() <= u32::MAX ==> r.edge_blocks_wf(),
{
    let n = nodes.len();
    let buckets = group_local(edges, tile_x, tile_y, n);
    let cross = cross_positions(edges, tile_x, tile_y);
    let (kept, blocks) = kept_positions(edges, tile_x, tile_y, n, &buckets);
    let table = build_names(edges, &cross, &kept);
    let ghost t = tile_names(edges@, tile_x, tile_y, n as int);
    proof {
        lemma_name_table(
            edge_names(at_positions(edges@, cross@)) + edge_names(at_positions(edges@, kept@)),
        );
    }
    let flags = boundary_flags(edges, tile_x, tile_y, n, &cross);
    let mut cross_edges: Vec<CrossTileEdge> = Vec::new();
    let mut c: usize = 0;
    while c < cross.len()
        invariant
            c <= cross@.len(),
            views(table@) == t,
            t.no_duplicates(),
            t.len() <= 255,
            at_positions(edges@, cross@) == cross_of(edges@, tile_x, tile_y),
            forall|k: int| 0 <= k < cross@.len() ==> (#[trigger] cross@[k] as int) < edges@.len(),
            cross_edges@.len() == c,
            forall|k: int|
                0 <= k < c ==> #[trigger] cross_edges@[k] == cross_edge_of(
                    cross_of(edges@, tile_x, tile_y)[k],
                    t,
                ),
        decreases cross@.len() - c,
    {
        let e = &edges[cross[c]];
        let id = name_id(&table, &e.name);
        proof {
            assert(cross_of(edges@, tile_x, tile_y)[c as int] == edges@[cross@[c as int] as int]);
        }
        cross_edges.push(
            CrossTileEdge {
                source: e.from,
                target_tile_x: e.to_tile_x,
                target_tile_y: e.to_tile_y,
                target_node: e.to_idx,
                distance_cm: e.distance_cm,
                speed_kmh: e.speed_kmh,
                road_class: e.road_class,
                flags: EdgeFlags(
                    if e.oneway {
                        1
                    } else {
                        0
                    },
                ),
                name_id: id,
            },
        );
        c = c + 1;
    }
    let mut out_edges: Vec<RoutingEdge> = Vec::new();
    let mut k: usize = 0;
    while k < kept.len()
        invariant
            k <= kept@.len(),
            views(table@) == t,
            t.no_duplicates(),
            t.len() <= 255,
            at_positions(edges@, kept@) == kept_edges(edges@, tile_x, tile_y, n as int),
            forall|q: int| 0 <= q < kept@.len() ==> (#[trigger] kept@[q] as int) < edges@.len(),
            out_edges@.len() == k,
            forall|q: int|
                0 <= q < k ==> #[trigger] out_edges@[q] == routing_edge_of(
                    kept_edges(edges@, tile_x, tile_y, n as int)[q],
                    t,
                ),
        decreases kept@.len() - k,
    {
        let e = &edges[kept[k]];
        let id = name_id(&table, &e.name);
        proof {
            assert(kept_edges(edges@, tile_x, tile_y, n as int)[k as int] == edges@[kept@[k as int] as int]);
        }
        out_edges.push(
            RoutingEdge {
                target: e.to_idx,
                distance_cm: e.distance_cm,
                speed_kmh: e.speed_kmh,
                road_class: e.road_class,
                flags: EdgeFlags(
                    if e.oneway {
                        1
                    } else {
                        0
                    },
                ),
                name_id: id,
            },
        );
        k = k + 1;
    }
    let mut out_nodes: Vec<RoutingNode> = Vec::new();
    let mut bnodes: Vec<u16> = Vec::new();
    let mut i: usize = 0;
    while i < n
        invariant
            i <= n,
            n == nodes@.len(),
            flags@.len() == n,
            forall|a: int| 0 <= a < n ==> #[trigger] flags@[a] == is_boundary(edges@, tile_x, tile_y, a),
            blocks@.len() == n,
            forall|a: int|
                0 <= a < n ==> (#[trigger] blocks@[a]) == (
                    kept_edges(edges@, tile_x, tile_y, a).len() as u32,
                    cap255(local_from(edges@, tile_x, tile_y, a)).len() as u8,
                ),
            out_nodes@.len() == i,
            forall|a: int|
                0 <= a < i ==> #[trigger] out_nodes@[a] == (RoutingNode {
                    lat: nodes@[a].0,
                    lon: nodes@[a].1,
                    first_edge: kept_edges(edges@, tile_x, tile_y, a).len() as u32,
                    edge_count: cap255(local_from(edges@, tile_x, tile_y, a)).len() as u8,
                    flags: NodeFlags(
                        if is_boundary(edges@, tile_x, tile_y, a) {
                            1
                        } else {
                            0
                        },
                    ),
                }),
            bnodes@ == boundary_list(edges@, tile_x, tile_y, i as int),
        decreases n - i,
    {
        let b = flags[i];
        let (first, count) = blocks[i];
        out_nodes.push(
            RoutingNode {
                lat: nodes[i].0,
                lon: nodes[i].1,
                first_edge: first,
                edge_count: count,
                flags: NodeFlags(
                    if b {
                        1
                    } else {
                        0
                    },
                ),
            },
        );
        if b {
            bnodes.push(i as u16);
        }
        i = i + 1;
    }
    let r = RoutingTile {
        level,
        tile_x,
        tile_y,
        nodes: out_nodes,
        edges: out_edges,
        cross_tile_edges: cross_edges,
        boundary_nodes: bnodes,
        names: table,
    };
    proof {
        if r.edges@.len() <= u32::MAX {
            lemma_built_tile_edges(r, nodes@, edges@);
        }
    }
    r
}

/// The regular edges of node `i` are edges of `es` that stay in the tile
/// and leave node `i`.
proof fn lemma_local_from_members(es: Seq<TileEdgeInput>, tx: i32, ty: i32, i: int)
    ensures
        forall|x: TileEdgeInput|
            #[trigger] local_from(es, tx, ty, i).contains(x) ==> es.contains(x) && stays_in(x, tx, ty)
                && x.from == i,
    decreases es.len(),
{
    if es.len() > 0 {
        lemma_local_from_members(es.drop_last(), tx, ty, i);
        assert forall|x: TileEdgeInput| #[trigger] local_from(es, tx, ty, i).contains(x) implies es.contains(x)
            && stays_in(x, tx, ty) && x.from == i by {
            let r = local_from(es.drop_last(), tx, ty, i);
            if r.contains(x) {
                let j = choose|j: int| 0 <= j < es.drop_last().len() && es.drop_last()[j] == x;
                assert(es[j] == x);
            } else {
                assert(es[es.len() - 1] == x);
            }
        }
    }
}

/// The kept regular edges of nodes `0..n` are edges of `es` that stay in
/// the tile and leave one of those nodes.
proof fn lemma_kept_members(es: Seq<TileEdgeInput>, tx: i32, ty: i32, n: int)
    ensures
        forall|x: TileEdgeInput|
            #[trigger] kept_edges(es, tx, ty, n).contains(x) ==> es.contains(x) && stays_in(x, tx, ty)
                && x.from < n,
    decreases n,
{
    if n > 0 {
        lemma_kept_members(es, tx, ty, n - 1);
        lemma_local_from_members(es, tx, ty, n - 1);
        let a = kept_edges(es, tx, ty, n - 1);
        let c = cap255(local_from(es, tx, ty, n - 1));
        assert forall|x: TileEdgeInput| #[trigger] kept_edges(es, tx, ty, n).contains(x) implies es.contains(x)
            && stays_in(x, tx, ty) && x.from < n by {
            let j = choose|j: int| 0 <= j < (a + c).len() && (a + c)[j] == x;
            if j < a.len() {
                assert(a[j] == x);
                assert(a.contains(x));
            } else {
                assert(c[j - a.len()] == x);
                assert(local_from(es, tx, ty, n - 1)[j - a.len()] == x);
                assert(local_from(es, tx, ty, n - 1).contains(x));
            }
        }
    }
}

/// The cross-tile edges are exactly the edges of `es` that leave the tile.
proof fn lemma_cross_members(es: Seq<TileEdgeInput>, tx: i32, ty: i32)
    ensures
        forall|x: TileEdgeInput|
            #[trigger] cross_of(es, tx, ty).contains(x) <==> es.contains(x) && !stays_in(x, tx, ty),
    decreases es.len(),
{
    if es.len() > 0 {
        let d = es.drop_last();
        lemma_cross_members(d, tx, ty);
        assert forall|x: TileEdgeInput|
            #[trigger] cross_of(es, tx, ty).contains(x) <==> es.contains(x) && !stays_in(x, tx, ty) by {
            let r = cross_of(d, tx, ty);
            if cross_of(es, tx, ty).contains(x) {
                if r.contains(x) {
                    let j = choose|j: int| 0 <= j < d.len() && d[j] == x;
                    assert(es[j] == x);
                } else {
                    assert(es[es.len() - 1] == x);
                }
            }
            if es.contains(x) && !stays_in(x, tx, ty) {
                let j = choose|j: int| 0 <= j < es.len() && es[j] == x;
                if j < es.len() - 1 {
                    assert(d[j] == x);
                    assert(r.contains(x));
                    let q = choose|q: int| 0 <= q < r.len() && r[q] == x;
                    assert(cross_of(es, tx, ty)[q] == x);
                } else {
                    assert(cross_of(es, tx, ty)[cross_of(es, tx, ty).len() - 1] == x);
                }
            }
        }
    }
}

/// The boundary list names, in increasing order, exactly the nodes below
/// `n` with an edge leaving the tile.
proof fn lemma_boundary_list(es: Seq<TileEdgeInput>, tx: i32, ty: i32, n: int)
    requires
        0 <= n <= 0x1_0000,
    ensures
        forall|a: int, b: int|
            0 <= a < b < boundary_list(es, tx, ty, n).len() ==> #[trigger] boundary_list(es, tx, ty, n)[a]
                < #[trigger] boundary_list(es, tx, ty, n)[b],
        forall|v: u16|
            #[trigger] boundary_list(es, tx, ty, n).contains(v) <==> v < n && is_boundary(es, tx, ty, v as int),
    decreases n,
{
    if n > 0 {
        lemma_boundary_list(es, tx, ty, n - 1);
        let r = boundary_list(es, tx, ty, n - 1);
        let full = boundary_list(es, tx, ty, n);
        assert forall|a: int| 0 <= a < r.len() implies r[a] < n - 1 by {
            assert(r.contains(r[a]));
        }
        assert forall|v: u16| #[trigger] full.contains(v) <==> v < n && is_boundary(es, tx, ty, v as int) by {
            if full.contains(v) && !r.contains(v) {
                assert(full[full.len() - 1] == v);
            }
            if v < n && is_boundary(es, tx, ty, v as int) {
                if v < n - 1 {
                    assert(r.contains(v));
                    let q = choose|q: int| 0 <= q < r.len() && r[q] == v;
                    assert(full[q] == v);
                } else {
                    assert(full[full.len() - 1] == v);
                }
            }
        }
    }
}

/// The layout of a routing tile: the node edge blocks are consecutive
/// from 0 and cover the edge array; every edge reaches a node of the tile;
/// every cross-tile edge leaves a node of the tile for another tile; and
/// the boundary list names, in increasing order, exactly the sources of
/// the cross-tile edges.
pub open spec fn tile_layout_ok(r: RoutingTile) -> bool {
    let n = r.nodes@.len();
    &&& n > 0 ==> r.nodes@[0].first_edge == 0
    &&& forall|i: int|
        0 <= i < n - 1 ==> #[trigger] r.nodes@[i + 1].first_edge == r.nodes@[i].first_edge
            + r.nodes@[i].edge_count
    &&& n > 0 ==> r.nodes@[n - 1].first_edge + r.nodes@[n - 1].edge_count == r.edges@.len()
    &&& forall|k: int| 0 <= k < r.edges@.len() ==> (#[trigger] r.edges@[k]).target < n
    &&& forall|k: int|
        0 <= k < r.cross_tile_edges@.len() ==> (#[trigger] r.cross_tile_edges@[k]).source < n && (
        r.cross_tile_edges@[k].target_tile_x,
        r.cross_tile_edges@[k].target_tile_y,
    ) != (r.tile_x, r.tile_y)
    &&& forall|a: int, b: int|
        0 <= a < b < r.boundary_nodes@.len() ==> #[trigger] r.boundary_nodes@[a]
            < #[trigger] r.boundary_nodes@[b]
    &&& forall|v: u16|
        #[trigger] r.boundary_nodes@.contains(v) <==> exists|k: int|
            0 <= k < r.cross_tile_edges@.len() && r.cross_tile_edges@[k].source == v
}

/// A built tile has the layout of `tile_layout_ok` when its nodes number
/// at most 2^16 (the boundary list holds 16-bit node indices), its edges
/// fit 32-bit indices, and every input edge leaves a node of the tile and,
/// when it stays in the tile, reaches one.
pub proof fn lemma_built_tile_layout(
    r: RoutingTile,
    level: HierarchyLevel,
    tx: i32,
    ty: i32,
    nodes: Seq<(i32, i32)>,
    es: Seq<TileEdgeInput>,
)
    requires
        built_tile(r, level, tx, ty, nodes, es),
        nodes.len() <= 0x1_0000,
        r.edges@.len() <= u32::MAX,
        forall|k: int|
            0 <= k < es.len() ==> (#[trigger] es[k]).from < nodes.len() && (stays_in(es[k], tx, ty)
                ==> es[k].to_idx < nodes.len()),
    ensures
        tile_layout_ok(r),
{
    let n = nodes.len() as int;
    let all = kept_edges(es, tx, ty, n);
    assert forall|i: int| 0 <= i < n - 1 implies #[trigger] r.nodes@[i + 1].first_edge
        == r.nodes@[i].first_edge + r.nodes@[i].edge_count by {
        lemma_kept_prefix(es, tx, ty, i + 1, n);
        assert(kept_edges(es, tx, ty, i + 1) == kept_edges(es, tx, ty, i) + cap255(local_from(es, tx, ty, i)));
        assert(r.nodes@[i + 1] == r.nodes@[i + 1]);
        assert(r.nodes@[i] == r.nodes@[i]);
    }
    if n > 0 {
        assert(r.nodes@[0] == r.nodes@[0]);
        assert(r.nodes@[n - 1] == r.nodes@[n - 1]);
        assert(kept_edges(es, tx, ty, n) == kept_edges(es, tx, ty, n - 1) + cap255(local_from(es, tx, ty, n - 1)));
    }
    lemma_kept_members(es, tx, ty, n);
    assert forall|k: int| 0 <= k < r.edges@.len() implies (#[trigger] r.edges@[k]).target < n by {
        assert(all.contains(all[k]));
        let j = choose|j: int| 0 <= j < es.len() && es[j] == all[k];
    }
    lemma_cross_members(es, tx, ty);
    let cs = cross_of(es, tx, ty);
    assert forall|k: int| 0 <= k < r.cross_tile_edges@.len() implies (#[trigger] r.cross_tile_edges@[k]).source
        < n && (r.cross_tile_edges@[k].target_tile_x, r.cross_tile_edges@[k].target_tile_y) != (tx, ty) by {
        assert(cs.contains(cs[k]));
        let j = choose|j: int| 0 <= j < es.len() && es[j] == cs[k];
    }
    lemma_boundary_list(es, tx, ty, n);
    assert forall|v: u16| #[trigger] r.boundary_nodes@.contains(v) <==> exists|k: int|
        0 <= k < r.cross_tile_edges@.len() && r.cross_tile_edges@[k].source == v by {
        if r.boundary_nodes@.contains(v) {
            assert(is_boundary(es, tx, ty, v as int));
            let j = choose|j: int| 0 <= j < es.len() && !stays_in(#[trigger] es[j], tx, ty) && es[j].from == v;
            assert(es.contains(es[j]));
            assert(cs.contains(es[j]));
            let k = choose|k: int| 0 <= k < cs.len() && cs[k] == es[j];
            assert(r.cross_tile_edges@[k].source == v);
        }
        if exists|k: int| 0 <= k < r.cross_tile_edges@.len() && r.cross_tile_edges@[k].source == v {
            let k = choose|k: int| 0 <= k < r.cross_tile_edges@.len() && r.cross_tile_edges@[k].source == v;
            assert(r.cross_tile_edges@[k] == cross_edge_of(cs[k], tile_names(es, tx, ty, n)));
            assert(cs.contains(cs[k]));
            let j = choose|j: int| 0 <= j < es.len() && es[j] == cs[k];
            assert(es[j].from == v);
            assert(!stays_in(es[j], tx, ty));
        }
    }
}

} // verus!
