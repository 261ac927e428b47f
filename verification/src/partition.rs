//! Partitioning the road graph of one hierarchy level into routing tiles.
//!
//! Every node belongs to exactly one tile, its canonical tile, which the
//! caller computes from its coordinates. Nodes are numbered inside their
//! tile in the order the level's edges first reach them; tiles come in the
//! order their first node is reached.
use vstd::prelude::*;

use vstd::hash_map::HashMapWithView;

use crate::osm::road_class_for_level;
use crate::routing::search_index::{le_bytes, le_value, lemma_le_roundtrip, lemma_pow256_values, push_le, read_le};
use crate::routing::types::{class_level, HierarchyLevel, RoadClass, RoutingTile};
use crate::tile_build::{
    build_routing_tile, built_tile, lemma_built_tile_layout, stays_in, tile_layout_ok, TileEdgeInput,
};

verus! {

broadcast use vstd::std_specs::hash::group_hash_axioms;

/// A directed edge of the road graph between two OSM nodes.
#[derive(Debug, Clone)]
pub struct GraphEdgeInput {
    pub from: i64,
    pub to: i64,
    /// Length in centimeters.
    pub distance_cm: u32,
    pub road_class: RoadClass,
    pub speed_kmh: u8,
    pub oneway: bool,
    pub name: Option<String>,
}

/// Where a graph node lies: its canonical tile at the level being built and
/// its coordinates in microdegrees.
#[derive(Debug, Clone, Copy)]
pub struct NodePlace {
    pub tile_x: i32,
    pub tile_y: i32,
    pub lat: i32,
    pub lon: i32,
}

/// The places of the nodes, by id; the first place given for an id counts.
pub open spec fn place_map(ps: Seq<(i64, NodePlace)>) -> Map<i64, NodePlace>
    decreases ps.len(),
{
    if ps.len() == 0 {
        Map::empty()
    } else {
        let m = place_map(ps.drop_last());
        if m.dom().contains(ps.last().0) {
            m
        } else {
            m.insert(ps.last().0, ps.last().1)
        }
    }
}

/// The edge belongs to the level.
pub open spec fn on_level(e: GraphEdgeInput, level: HierarchyLevel) -> bool {
    class_level(e.road_class) == level
}

/// Appends a node that has a place and is not listed yet.
pub open spec fn add_node(o: Seq<i64>, pm: Map<i64, NodePlace>, x: i64) -> Seq<i64> {
    if pm.dom().contains(x) && !o.contains(x) {
        o.push(x)
    } else {
        o
    }
}

/// The nodes with a place reached by the level's edges, in the order the
/// edges reach them (source before target).
pub open spec fn node_order(es: Seq<GraphEdgeInput>, pm: Map<i64, NodePlace>, level: HierarchyLevel) -> Seq<i64>
    decreases es.len(),
{
    if es.len() == 0 {
        Seq::empty()
    } else {
        let o = node_order(es.drop_last(), pm, level);
        let e = es.last();
        if on_level(e, level) {
            add_node(add_node(o, pm, e.from), pm, e.to)
        } else {
            o
        }
    }
}

/// The canonical tile of a node.
pub open spec fn tile_of(pm: Map<i64, NodePlace>, id: i64) -> (i32, i32) {
    (pm[id].tile_x, pm[id].tile_y)
}

/// The tiles of the listed nodes, in order of their first node.
pub open spec fn tile_order(o: Seq<i64>, pm: Map<i64, NodePlace>) -> Seq<(i32, i32)>
    decreases o.len(),
{
    if o.len() == 0 {
        Seq::empty()
    } else {
        let t = tile_order(o.drop_last(), pm);
        let c = tile_of(pm, o.last());
        if t.contains(c) {
            t
        } else {
            t.push(c)
        }
    }
}

/// The listed nodes whose canonical tile is `t`, in order.
pub open spec fn ids_in(o: Seq<i64>, pm: Map<i64, NodePlace>, t: (i32, i32)) -> Seq<i64>
    decreases o.len(),
{
    if o.len() == 0 {
        Seq::empty()
    } else {
        let r = ids_in(o.drop_last(), pm, t);
        if tile_of(pm, o.last()) == t {
            r.push(o.last())
        } else {
            r
        }
    }
}

/// Index of a node inside its canonical tile.
pub open spec fn local_index(o: Seq<i64>, pm: Map<i64, NodePlace>, id: i64) -> int {
    ids_in(o, pm, tile_of(pm, id)).index_of(id)
}

/// The coordinates of nodes.
pub open spec fn node_coords(ids: Seq<i64>, pm: Map<i64, NodePlace>) -> Seq<(i32, i32)> {
    Seq::new(ids.len(), |k: int| (pm[ids[k]].lat, pm[ids[k]].lon))
}

/// A graph edge as seen from the tile of its source.
pub open spec fn tile_input(e: GraphEdgeInput, o: Seq<i64>, pm: Map<i64, NodePlace>) -> TileEdgeInput {
    TileEdgeInput {
        from: local_index(o, pm, e.from) as u32,
        to_tile_x: tile_of(pm, e.to).0,
        to_tile_y: tile_of(pm, e.to).1,
        to_idx: local_index(o, pm, e.to) as u32,
        distance_cm: e.distance_cm,
        road_class: e.road_class,
        speed_kmh: e.speed_kmh,
        oneway: e.oneway,
        name: e.name,
    }
}

/// The edge is stored in tile `t`: it belongs to the level, both ends
/// have a place, and its source lies in `t`.
pub open spec fn stored_in(e: GraphEdgeInput, pm: Map<i64, NodePlace>, level: HierarchyLevel, t: (i32, i32)) -> bool {
    on_level(e, level) && pm.dom().contains(e.from) && pm.dom().contains(e.to) && tile_of(pm, e.from)
        == t
}

/// The edges stored in tile `t`, in order.
pub open spec fn tile_inputs(
    es: Seq<GraphEdgeInput>,
    o: Seq<i64>,
    pm: Map<i64, NodePlace>,
    level: HierarchyLevel,
    t: (i32, i32),
) -> Seq<TileEdgeInput>
    decreases es.len(),
{
    if es.len() == 0 {
        Seq::empty()
    } else {
        let r = tile_inputs(es.drop_last(), o, pm, level, t);
        if stored_in(es.last(), pm, level, t) {
            r.push(tile_input(es.last(), o, pm))
        } else {
            r
        }
    }
}

// ---------------------------------------------------------------------------
// Lemmas
// ---------------------------------------------------------------------------

proof fn lemma_add_node(o: Seq<i64>, pm: Map<i64, NodePlace>, x: i64)
    requires
        o.no_duplicates(),
        forall|y: i64| o.contains(y) ==> pm.dom().contains(y),
    ensures
        add_node(o, pm, x).no_duplicates(),
        forall|y: i64| add_node(o, pm, x).contains(y) ==> pm.dom().contains(y),
        forall|y: i64| o.contains(y) ==> add_node(o, pm, x).contains(y),
        pm.dom().contains(x) ==> add_node(o, pm, x).contains(x),
{
    let r = add_node(o, pm, x);
    if pm.dom().contains(x) && !o.contains(x) {
        assert forall|y: i64| o.contains(y) implies r.contains(y) by {
            let i = choose|i: int| 0 <= i < o.len() && o[i] == y;
            assert(r[i] == y);
        }
        assert(r[o.len() as int] == x);
        assert forall|y: i64| r.contains(y) implies pm.dom().contains(y) by {
            let i = choose|i: int| 0 <= i < r.len() && r[i] == y;
            if i < o.len() {
                assert(o[i] == y);
                assert(o.contains(y));
            } else {
                assert(y == x);
            }
        }
    }
}

/// The node order lists every node once, each with a place.
proof fn lemma_node_order(es: Seq<GraphEdgeInput>, pm: Map<i64, NodePlace>, level: HierarchyLevel)
    ensures
        node_order(es, pm, level).no_duplicates(),
        forall|y: i64| node_order(es, pm, level).contains(y) ==> pm.dom().contains(y),
    decreases es.len(),
{
    if es.len() > 0 {
        let p = es.drop_last();
        lemma_node_order(p, pm, level);
        let o = node_order(p, pm, level);
        let e = es.last();
        if on_level(e, level) {
            lemma_add_node(o, pm, e.from);
            lemma_add_node(add_node(o, pm, e.from), pm, e.to);
        }
    }
}

/// An edge of the level lists both its ends when they have a place.
proof fn lemma_node_order_covers(
    es: Seq<GraphEdgeInput>,
    pm: Map<i64, NodePlace>,
    level: HierarchyLevel,
    j: int,
)
    requires
        0 <= j < es.len(),
        on_level(es[j], level),
    ensures
        pm.dom().contains(es[j].from) ==> node_order(es, pm, level).contains(es[j].from),
        pm.dom().contains(es[j].to) ==> node_order(es, pm, level).contains(es[j].to),
    decreases es.len(),
{
    let p = es.drop_last();
    lemma_node_order(p, pm, level);
    let o = node_order(p, pm, level);
    let e = es.last();
    if j < es.len() - 1 {
        assert(es[j] == p[j]);
        lemma_node_order_covers(p, pm, level, j);
    }
    if on_level(e, level) {
        lemma_add_node(o, pm, e.from);
        lemma_add_node(add_node(o, pm, e.from), pm, e.to);
    }
}

proof fn lemma_push_unfold(o: Seq<i64>, pm: Map<i64, NodePlace>, x: i64)
    ensures
        tile_order(o.push(x), pm) == (if tile_order(o, pm).contains(tile_of(pm, x)) {
            tile_order(o, pm)
        } else {
            tile_order(o, pm).push(tile_of(pm, x))
        }),
        forall|t: (i32, i32)|
            #[trigger] ids_in(o.push(x), pm, t) == (if tile_of(pm, x) == t {
                ids_in(o, pm, t).push(x)
            } else {
                ids_in(o, pm, t)
            }),
{
    assert(o.push(x).drop_last() =~= o);
    assert forall|t: (i32, i32)|
        #[trigger] ids_in(o.push(x), pm, t) == (if tile_of(pm, x) == t {
            ids_in(o, pm, t).push(x)
        } else {
            ids_in(o, pm, t)
        }) by {
        assert(o.push(x).drop_last() =~= o);
    }
}

/// The tile order lists each tile once, and the tile of every listed node.
pub proof fn lemma_tile_order(o: Seq<i64>, pm: Map<i64, NodePlace>)
    ensures
        tile_order(o, pm).no_duplicates(),
        forall|y: i64| o.contains(y) ==> tile_order(o, pm).contains(#[trigger] tile_of(pm, y)),
        forall|c: (i32, i32)|
            tile_order(o, pm).contains(c) ==> exists|y: i64| o.contains(y) && #[trigger] tile_of(pm, y) == c,
    decreases o.len(),
{
    if o.len() > 0 {
        let p = o.drop_last();
        let x = o.last();
        lemma_tile_order(p, pm);
        assert(p.push(x) =~= o);
        lemma_push_unfold(p, pm, x);
        let t = tile_order(p, pm);
        let r = tile_order(o, pm);
        assert forall|y: i64| o.contains(y) implies r.contains(#[trigger] tile_of(pm, y)) by {
            let i = choose|i: int| 0 <= i < o.len() && o[i] == y;
            if i < p.len() {
                assert(p[i] == y);
                assert(p.contains(y));
                assert(t.contains(tile_of(pm, y)));
                let j = choose|j: int| 0 <= j < t.len() && t[j] == tile_of(pm, y);
                assert(r[j] == tile_of(pm, y));
            } else {
                assert(y == x);
                if !t.contains(tile_of(pm, x)) {
                    assert(r[t.len() as int] == tile_of(pm, x));
                }
            }
        }
        assert forall|c: (i32, i32)| r.contains(c) implies exists|y: i64|
            o.contains(y) && #[trigger] tile_of(pm, y) == c by {
            let j = choose|j: int| 0 <= j < r.len() && r[j] == c;
            if j < t.len() {
                assert(t[j] == c);
                assert(t.contains(c));
                let y = choose|y: i64| p.contains(y) && #[trigger] tile_of(pm, y) == c;
                let i = choose|i: int| 0 <= i < p.len() && p[i] == y;
                assert(o[i] == y);
                assert(o.contains(y));
            } else {
                assert(o[o.len() - 1] == x);
                assert(o.contains(x));
                assert(tile_of(pm, x) == c);
            }
        }
    }
}

/// The nodes of a tile are the listed nodes lying in it, each once.
pub proof fn lemma_ids_in(o: Seq<i64>, pm: Map<i64, NodePlace>, t: (i32, i32))
    requires
        o.no_duplicates(),
    ensures
        ids_in(o, pm, t).no_duplicates(),
        ids_in(o, pm, t).len() <= o.len(),
        forall|y: i64| #[trigger] ids_in(o, pm, t).contains(y) <==> (o.contains(y) && tile_of(pm, y) == t),
    decreases o.len(),
{
    if o.len() > 0 {
        let p = o.drop_last();
        let x = o.last();
        assert(p.push(x) =~= o);
        assert(p.no_duplicates()) by {
            assert forall|i: int, j: int| 0 <= i < j < p.len() implies p[i] != p[j] by {
                assert(o[i] == p[i] && o[j] == p[j]);
            }
        }
        assert(!p.contains(x)) by {
            if p.contains(x) {
                let i = choose|i: int| 0 <= i < p.len() && p[i] == x;
                assert(o[i] == o[o.len() - 1]);
            }
        }
        lemma_ids_in(p, pm, t);
        lemma_push_unfold(p, pm, x);
        let a = ids_in(p, pm, t);
        let r = ids_in(o, pm, t);
        assert forall|y: i64| #[trigger] r.contains(y) <==> (o.contains(y) && tile_of(pm, y) == t) by {
            if r.contains(y) {
                let i = choose|i: int| 0 <= i < r.len() && r[i] == y;
                if i < a.len() {
                    assert(a[i] == y);
                    assert(a.contains(y));
                    let k = choose|k: int| 0 <= k < p.len() && p[k] == y;
                    assert(o[k] == y);
                } else {
                    assert(y == x);
                    assert(o[o.len() - 1] == x);
                }
            }
            if o.contains(y) && tile_of(pm, y) == t {
                let k = choose|k: int| 0 <= k < o.len() && o[k] == y;
                if k < p.len() {
                    assert(p[k] == y);
                    assert(p.contains(y));
                    assert(a.contains(y));
                    let i = choose|i: int| 0 <= i < a.len() && a[i] == y;
                    assert(r[i] == y);
                } else {
                    assert(y == x);
                    assert(r[a.len() as int] == x);
                }
            }
        }
        if tile_of(pm, x) == t {
            assert(!a.contains(x));
            assert forall|i: int, j: int| 0 <= i < j < r.len() implies r[i] != r[j] by {
                if j == a.len() {
                    assert(r[i] == a[i]);
                }
            }
        }
    }
}

/// The node coordinates of a list with one more node.
proof fn lemma_node_coords_push(ids: Seq<i64>, pm: Map<i64, NodePlace>, x: i64)
    ensures
        node_coords(ids.push(x), pm) == node_coords(ids, pm).push((pm[x].lat, pm[x].lon)),
{
    assert(node_coords(ids.push(x), pm) =~= node_coords(ids, pm).push((pm[x].lat, pm[x].lon)));
}

/// With no duplicates, the index of an element is where it stands.
proof fn lemma_index_of_unique(s: Seq<i64>, i: int)
    requires
        s.no_duplicates(),
        0 <= i < s.len(),
    ensures
        s.index_of(s[i]) == i,
{
    assert(s[i] == s[i]);
    let j = s.index_of(s[i]);
    assert(0 <= j < s.len() && s[j] == s[i]);
}

// ---------------------------------------------------------------------------
// Building the layout
// ---------------------------------------------------------------------------

/// Key of a tile in a hash map.
spec fn tile_key(c: (i32, i32)) -> u64 {
    ((c.0 + 0x8000_0000) * 0x1_0000_0000 + (c.1 + 0x8000_0000)) as u64
}

proof fn lemma_tile_key(a: (i32, i32), b: (i32, i32))
    ensures
        (tile_key(a) == tile_key(b)) == (a == b),
{
    let xa = a.0 + 0x8000_0000;
    let ya = a.1 + 0x8000_0000;
    let xb = b.0 + 0x8000_0000;
    let yb = b.1 + 0x8000_0000;
    assert(0 <= xa * 0x1_0000_0000 + ya < 0x1_0000_0000_0000_0000) by (nonlinear_arith)
        requires
            0 <= xa < 0x1_0000_0000,
            0 <= ya < 0x1_0000_0000,
    ;
    assert(0 <= xb * 0x1_0000_0000 + yb < 0x1_0000_0000_0000_0000) by (nonlinear_arith)
        requires
            0 <= xb < 0x1_0000_0000,
            0 <= yb < 0x1_0000_0000,
    ;
    if xa * 0x1_0000_0000 + ya == xb * 0x1_0000_0000 + yb {
        assert(xa == xb && ya == yb) by (nonlinear_arith)
            requires
                xa * 0x1_0000_0000 + ya == xb * 0x1_0000_0000 + yb,
                0 <= ya < 0x1_0000_0000,
                0 <= yb < 0x1_0000_0000,
        ;
    }
}

fn tile_key_of(c: (i32, i32)) -> (r: u64)
    ensures
        r == tile_key(c),
{
    proof {
        lemma_tile_key(c, c);
    }
    let x = (c.0 as i64 + 0x8000_0000i64) as u64;
    let y = (c.1 as i64 + 0x8000_0000i64) as u64;
    x * 0x1_0000_0000u64 + y
}

/// The places of the nodes in a hash map.
fn place_lookup(places: &Vec<(i64, NodePlace)>) -> (m: HashMapWithView<i64, NodePlace>)
    ensures
        m@ == place_map(places@),
{
    let mut m: HashMapWithView<i64, NodePlace> = HashMapWithView::new();
    let mut k: usize = 0;
    while k < places.len()
        invariant
            k <= places@.len(),
            m@ == place_map(places@.subrange(0, k as int)),
        decreases places@.len() - k,
    {
        let (id, p) = places[k];
        proof {
            assert(places@.subrange(0, k + 1).drop_last() =~= places@.subrange(0, k as int));
        }
        if !m.contains_key(&id) {
            m.insert(id, p);
        }
        k = k + 1;
    }
    assert(places@.subrange(0, places@.len() as int) =~= places@);
    m
}

/// Nodes numbered inside their tiles so far.
struct Layout {
    /// Node id to (tile slot, local index).
    local: HashMapWithView<i64, (usize, u32)>,
    /// Tile coordinates by slot.
    tiles: Vec<(i32, i32)>,
    /// Slot of a tile, by its key.
    slots: HashMapWithView<u64, usize>,
    /// Node coordinates of each tile, by local index.
    tile_nodes: Vec<Vec<(i32, i32)>>,
}

impl Layout {
    /// The layout numbers the nodes of `o`.
    spec fn numbers(&self, o: Seq<i64>, pm: Map<i64, NodePlace>) -> bool {
        &&& o.no_duplicates()
        &&& forall|y: i64| o.contains(y) ==> pm.dom().contains(y)
        &&& forall|y: i64| #[trigger] self.local@.dom().contains(y) <==> o.contains(y)
        &&& self.tiles@ == tile_order(o, pm)
        &&& forall|c: (i32, i32)| #[trigger] self.slots@.dom().contains(tile_key(c)) <==> self.tiles@.contains(c)
        &&& forall|i: int| 0 <= i < self.tiles@.len() ==> self.slots@[tile_key(#[trigger] self.tiles@[i])] == i
        &&& self.tile_nodes@.len() == self.tiles@.len()
        &&& forall|i: int|
            0 <= i < self.tiles@.len() ==> (#[trigger] self.tile_nodes@[i])@ == node_coords(
                ids_in(o, pm, self.tiles@[i]),
                pm,
            )
        &&& forall|y: i64|
            o.contains(y) ==> {
                let (s, li) = #[trigger] self.local@[y];
                &&& s < self.tiles@.len()
                &&& self.tiles@[s as int] == tile_of(pm, y)
                &&& li < ids_in(o, pm, tile_of(pm, y)).len()
                &&& ids_in(o, pm, tile_of(pm, y))[li as int] == y
            }
    }

    fn new(Ghost(pm): Ghost<Map<i64, NodePlace>>) -> (r: Self)
        ensures
            r.numbers(Seq::empty(), pm),
    {
        let r = Layout {
            local: HashMapWithView::new(),
            tiles: Vec::new(),
            slots: HashMapWithView::new(),
            tile_nodes: Vec::new(),
        };
        r
    }

    /// Numbers node `x` when it has a place and is not numbered yet.
    fn add(&mut self, pmap: &HashMapWithView<i64, NodePlace>, x: i64, Ghost(o): Ghost<Seq<i64>>)
        requires
            old(self).numbers(o, pmap@),
            o.len() < u32::MAX,
        ensures
            final(self).numbers(add_node(o, pmap@, x), pmap@),
    {
        let ghost pm = pmap@;
        if self.local.contains_key(&x) {
            return;
        }
        let p = match pmap.get(&x) {
            Some(p) => *p,
            None => {
                return;
            },
        };
        let c = (p.tile_x, p.tile_y);
        assert(c == tile_of(pm, x));
        let key = tile_key_of(c);
        let ghost o2 = o.push(x);
        proof {
            lemma_push_unfold(o, pm, x);
            lemma_tile_order(o, pm);
            lemma_tile_order(o2, pm);
            lemma_ids_in(o, pm, c);
            assert(add_node(o, pm, x) == o2);
        }
        let ghost old_tiles = self.tiles@;
        let ghost old_slots = self.slots@;
        let ghost old_nodes = self.tile_nodes@;
        let s = match self.slots.get(&key) {
            Some(s) => {
                let s = *s;
                proof {
                    assert(old_tiles.contains(c));
                    let i = choose|i: int| 0 <= i < old_tiles.len() && old_tiles[i] == c;
                    assert(old_slots[tile_key(old_tiles[i])] == i);
                }
                s
            },
            None => {
                let s = self.tiles.len();
                proof {
                    assert(!old_tiles.contains(c));
                    assert(ids_in(o, pm, c) =~= Seq::<i64>::empty()) by {
                        if ids_in(o, pm, c).len() > 0 {
                            let y = ids_in(o, pm, c)[0];
                            assert(ids_in(o, pm, c).contains(y));
                            assert(o.contains(y) && tile_of(pm, y) == c);
                        }
                    }
                }
                self.tiles.push(c);
                self.slots.insert(key, s);
                self.tile_nodes.push(Vec::new());
                s
            },
        };
        let li = self.tile_nodes[s].len();
        assert(li == ids_in(o, pm, c).len());
        self.tile_nodes[s].push((p.lat, p.lon));
        self.local.insert(x, (s, li as u32));
        proof {
            let t2 = self.tiles@;
            assert(t2 == tile_order(o2, pm));
            assert(t2[s as int] == c);
            lemma_node_coords_push(ids_in(o, pm, c), pm, x);
            assert forall|c2: (i32, i32)| #[trigger] self.slots@.dom().contains(tile_key(c2)) <==> t2.contains(c2) by {
                lemma_tile_key(c, c2);
                if t2.contains(c2) && c2 != c {
                    let i = choose|i: int| 0 <= i < t2.len() && t2[i] == c2;
                    assert(old_tiles[i] == c2);
                    assert(old_tiles.contains(c2));
                }
                if old_tiles.contains(c2) {
                    let i = choose|i: int| 0 <= i < old_tiles.len() && old_tiles[i] == c2;
                    assert(t2[i] == c2);
                }
            }
            assert forall|i: int| 0 <= i < t2.len() implies self.slots@[tile_key(#[trigger] t2[i])] == i by {
                lemma_tile_key(c, t2[i]);
                if i < old_tiles.len() {
                    assert(old_tiles[i] == t2[i]);
                    if t2[i] == c {
                        assert(t2[s as int] == t2[i]);
                    }
                }
            }
            assert forall|i: int| 0 <= i < t2.len() implies (#[trigger] self.tile_nodes@[i])@ == node_coords(
                ids_in(o2, pm, t2[i]),
                pm,
            ) by {
                if i != s {
                    assert(t2[i] != t2[s as int]);
                    assert(old_tiles[i] == t2[i]);
                    assert(self.tile_nodes@[i] == old_nodes[i]);
                }
            }
            assert forall|y: i64| #[trigger] self.local@.dom().contains(y) <==> o2.contains(y) by {
                if o2.contains(y) && y != x {
                    let i = choose|i: int| 0 <= i < o2.len() && o2[i] == y;
                    assert(o[i] == y);
                }
                if o.contains(y) {
                    let i = choose|i: int| 0 <= i < o.len() && o[i] == y;
                    assert(o2[i] == y);
                }
                assert(o2[o.len() as int] == x);
            }
            assert forall|y: i64| o2.contains(y) implies {
                let (sy, ly) = #[trigger] self.local@[y];
                &&& sy < t2.len()
                &&& t2[sy as int] == tile_of(pm, y)
                &&& ly < ids_in(o2, pm, tile_of(pm, y)).len()
                &&& ids_in(o2, pm, tile_of(pm, y))[ly as int] == y
            } by {
                if y != x {
                    let i = choose|i: int| 0 <= i < o2.len() && o2[i] == y;
                    assert(o[i] == y);
                    assert(o.contains(y));
                    let (sy, ly) = self.local@[y];
                    assert(old_tiles[sy as int] == t2[sy as int]);
                }
            }
            assert(o2.no_duplicates()) by {
                assert forall|i: int, j: int| 0 <= i < j < o2.len() implies o2[i] != o2[j] by {
                    if j == o.len() {
                        assert(o2[i] == o[i]);
                        assert(o.contains(o[i]));
                    } else {
                        assert(o2[i] == o[i] && o2[j] == o[j]);
                    }
                }
            }
            assert forall|y: i64| o2.contains(y) implies pm.dom().contains(y) by {
                let i = choose|i: int| 0 <= i < o2.len() && o2[i] == y;
                if i < o.len() {
                    assert(o[i] == y);
                    assert(o.contains(y));
                }
            }
        }
    }
}

fn clone_name(n: &Option<String>) -> (r: Option<String>)
    ensures
        r == *n,
{
    match n {
        Some(s) => Some(s.clone()),
        None => None,
    }
}

/// Partition the graph edges of `level` into routing tiles. `places` gives
/// for each graph node its canonical tile at this level and its
/// coordinates; nodes without a place are left out, with their edges.
/// Each tile holds the nodes whose canonical tile it is, numbered in the
/// order the level's edges reach them, and the edges whose source it
/// holds; tiles come in the order their first node is reached.
pub fn partition_by_level(
    edges: &Vec<GraphEdgeInput>,
    places: &Vec<(i64, NodePlace)>,
    level: HierarchyLevel,
) -> (r: Vec<RoutingTile>)
    requires
        edges@.len() < 0x7fff_ffff,
    ensures
        ({
            let pm = place_map(places@);
            let o = node_order(edges@, pm, level);
            let ts = tile_order(o, pm);
            &&& r@.len() == ts.len()
            &&& forall|i: int|
                0 <= i < r@.len() ==> built_tile(
                    #[trigger] r@[i],
                    level,
                    ts[i].0,
                    ts[i].1,
                    node_coords(ids_in(o, pm, ts[i]), pm),
                    tile_inputs(edges@, o, pm, level, ts[i]),
                )
        }),
{
    let pmap = place_lookup(places);
    let ghost pm = pmap@;
    let mut layout = Layout::new(Ghost(pm));
    let mut k: usize = 0;
    while k < edges.len()
        invariant
            k <= edges@.len(),
            edges@.len() < 0x7fff_ffff,
            pmap@ == pm,
            layout.numbers(node_order(edges@.subrange(0, k as int), pm, level), pm),
            node_order(edges@.subrange(0, k as int), pm, level).len() <= 2 * k,
        decreases edges@.len() - k,
    {
        let e = &edges[k];
        let ghost o = node_order(edges@.subrange(0, k as int), pm, level);
        proof {
            assert(edges@.subrange(0, k + 1).drop_last() =~= edges@.subrange(0, k as int));
            assert(edges@.subrange(0, k + 1).last() == edges@[k as int]);
        }
        if road_class_for_level(e.road_class, level) {
            layout.add(&pmap, e.from, Ghost(o));
            layout.add(&pmap, e.to, Ghost(add_node(o, pm, e.from)));
        }
        k = k + 1;
    }
    assert(edges@.subrange(0, edges@.len() as int) =~= edges@);
    let ghost o = node_order(edges@, pm, level);
    proof {
        lemma_node_order(edges@, pm, level);
        lemma_tile_order(o, pm);
    }
    let nt = layout.tiles.len();
    let mut inputs: Vec<Vec<TileEdgeInput>> = Vec::new();
    let mut i: usize = 0;
    while i < nt
        invariant
            i <= nt,
            nt == layout.tiles@.len(),
            inputs@.len() == i,
            forall|j: int| 0 <= j < i ==> (#[trigger] inputs@[j])@ == Seq::<TileEdgeInput>::empty(),
        decreases nt - i,
    {
        inputs.push(Vec::new());
        i = i + 1;
    }
    let mut k: usize = 0;
    while k < edges.len()
        invariant
            k <= edges@.len(),
            pmap@ == pm,
            o == node_order(edges@, pm, level),
            layout.numbers(o, pm),
            layout.tiles@.no_duplicates(),
            nt == layout.tiles@.len(),
            inputs@.len() == nt,
            forall|j: int|
                0 <= j < nt ==> (#[trigger] inputs@[j])@ == tile_inputs(
                    edges@.subrange(0, k as int),
                    o,
                    pm,
                    level,
                    layout.tiles@[j],
                ),
            forall|j: int, q: int|
                0 <= j < nt && 0 <= q < inputs@[j]@.len() ==> (#[trigger] inputs@[j]@[q]).from
                    < layout.tile_nodes@[j]@.len(),
        decreases edges@.len() - k,
    {
        let e = &edges[k];
        let ghost pre = edges@.subrange(0, k as int);
        proof {
            assert(edges@.subrange(0, k + 1).drop_last() =~= pre);
            assert(edges@.subrange(0, k + 1).last() == edges@[k as int]);
        }
        let ghost old_inputs = inputs@;
        if road_class_for_level(e.road_class, level) {
            proof {
                lemma_node_order_covers(edges@, pm, level, k as int);
            }
            match (layout.local.get(&e.from), layout.local.get(&e.to)) {
                (Some(a), Some(b)) => {
                    let (s, lf) = *a;
                    let (st, lt) = *b;
                    let c2 = layout.tiles[st];
                    let ghost t = tile_of(pm, e.from);
                    proof {
                        lemma_ids_in(o, pm, t);
                        lemma_ids_in(o, pm, tile_of(pm, e.to));
                        lemma_index_of_unique(ids_in(o, pm, t), lf as int);
                        lemma_index_of_unique(ids_in(o, pm, tile_of(pm, e.to)), lt as int);
                        assert(stored_in(edges@[k as int], pm, level, t));
                        assert(layout.tile_nodes@[s as int]@.len() == ids_in(o, pm, t).len());
                    }
                    let input = TileEdgeInput {
                        from: lf,
                        to_tile_x: c2.0,
                        to_tile_y: c2.1,
                        to_idx: lt,
                        distance_cm: e.distance_cm,
                        road_class: e.road_class,
                        speed_kmh: e.speed_kmh,
                        oneway: e.oneway,
                        name: clone_name(&e.name),
                    };
                    assert(input == tile_input(edges@[k as int], o, pm));
                    inputs[s].push(input);
                    proof {
                        assert forall|j: int|
                            0 <= j < nt implies (#[trigger] inputs@[j])@ == tile_inputs(
                            edges@.subrange(0, k + 1),
                            o,
                            pm,
                            level,
                            layout.tiles@[j],
                        ) by {
                            if j != s {
                                assert(layout.tiles@[j] != layout.tiles@[s as int]);
                                assert(inputs@[j] == old_inputs[j]);
                            }
                        }
                        assert forall|j: int, q: int|
                            0 <= j < nt && 0 <= q < inputs@[j]@.len() implies (#[trigger] inputs@[j]@[q]).from
                            < layout.tile_nodes@[j]@.len() by {
                            if j != s {
                                assert(inputs@[j] == old_inputs[j]);
                            } else if q < old_inputs[j]@.len() {
                                assert(inputs@[j]@[q] == old_inputs[j]@[q]);
                            }
                        }
                    }
                },
                _ => {
                    proof {
                        assert forall|j: int| 0 <= j < nt implies !stored_in(
                            edges@[k as int],
                            pm,
                            level,
                            #[trigger] layout.tiles@[j],
                        ) by {}
                    }
                },
            }
        }
        k = k + 1;
    }
    assert(edges@.subrange(0, edges@.len() as int) =~= edges@);
    let mut r: Vec<RoutingTile> = Vec::new();
    let mut i: usize = 0;
    while i < nt
        invariant
            i <= nt,
            o == node_order(edges@, pm, level),
            layout.numbers(o, pm),
            nt == layout.tiles@.len(),
            inputs@.len() == nt,
            forall|j: int|
                0 <= j < nt ==> (#[trigger] inputs@[j])@ == tile_inputs(edges@, o, pm, level, layout.tiles@[j]),
            forall|j: int, q: int|
                0 <= j < nt && 0 <= q < inputs@[j]@.len() ==> (#[trigger] inputs@[j]@[q]).from
                    < layout.tile_nodes@[j]@.len(),
            r@.len() == i,
            forall|j: int|
                0 <= j < i ==> built_tile(
                    #[trigger] r@[j],
                    level,
                    layout.tiles@[j].0,
                    layout.tiles@[j].1,
                    node_coords(ids_in(o, pm, layout.tiles@[j]), pm),
                    tile_inputs(edges@, o, pm, level, layout.tiles@[j]),
                ),
        decreases nt - i,
    {
        let c = layout.tiles[i];
        proof {
            assert(layout.tile_nodes@[i as int]@ == node_coords(ids_in(o, pm, layout.tiles@[i as int]), pm));
            assert forall|q: int| 0 <= q < inputs@[i as int]@.len() implies (#[trigger] inputs@[i as int]@[q].from as int)
                < layout.tile_nodes@[i as int]@.len() by {}
        }
        let tile = build_routing_tile(level, c.0, c.1, &layout.tile_nodes[i], &inputs[i]);
        r.push(tile);
        i = i + 1;
    }
    r
}

/// Each node reached by the level's edges (and with a place) lies in
/// exactly one of the tiles built, its canonical tile; no tile is built
/// twice.
pub proof fn lemma_canonical_ownership(
    edges: Seq<GraphEdgeInput>,
    places: Seq<(i64, NodePlace)>,
    level: HierarchyLevel,
    id: i64,
)
    ensures
        ({
            let pm = place_map(places);
            let o = node_order(edges, pm, level);
            let ts = tile_order(o, pm);
            &&& ts.no_duplicates()
            &&& o.contains(id) ==> ts.contains(tile_of(pm, id))
            &&& forall|t: (i32, i32)|
                ts.contains(t) ==> (#[trigger] ids_in(o, pm, t).contains(id) <==> (o.contains(id)
                    && tile_of(pm, id) == t))
        }),
{
    let pm = place_map(places);
    let o = node_order(edges, pm, level);
    lemma_node_order(edges, pm, level);
    lemma_tile_order(o, pm);
    assert forall|t: (i32, i32)|
        tile_order(o, pm).contains(t) implies (#[trigger] ids_in(o, pm, t).contains(id) <==> (
        o.contains(id) && tile_of(pm, id) == t)) by {
        lemma_ids_in(o, pm, t);
    }
}

// ---------------------------------------------------------------------------
// Graph edges of a way
// ---------------------------------------------------------------------------

/// A routable way: its nodes and the attributes of its road.
#[derive(Debug, Clone)]
pub struct WayInfo {
    pub nodes: Vec<i64>,
    pub road_class: RoadClass,
    pub oneway: bool,
    pub speed_kmh: u8,
    pub name: Option<String>,
}

/// The edge of a way from `from` to `to`.
pub open spec fn way_edge(w: WayInfo, from: i64, to: i64, len: u32, oneway: bool) -> GraphEdgeInput {
    GraphEdgeInput {
        from,
        to,
        distance_cm: len,
        road_class: w.road_class,
        speed_kmh: w.speed_kmh,
        oneway,
        name: w.name,
    }
}

/// The graph edges of the first `k` segments of a way: a segment whose
/// length is known gives an edge forward and, unless the way is one-way,
/// an edge back (which is not one-way).
pub open spec fn way_edges_spec(w: WayInfo, lengths: Seq<Option<u32>>, k: int) -> Seq<GraphEdgeInput>
    decreases k,
{
    if k <= 0 {
        Seq::empty()
    } else {
        let r = way_edges_spec(w, lengths, k - 1);
        let a = w.nodes@[k - 1];
        let b = w.nodes@[k];
        match lengths[k - 1] {
            Some(len) => if w.oneway {
                r.push(way_edge(w, a, b, len, true))
            } else {
                r.push(way_edge(w, a, b, len, false)).push(way_edge(w, b, a, len, false))
            },
            None => r,
        }
    }
}

/// The graph edges of a way. `lengths[k]` is the length of the segment
/// between its nodes `k` and `k + 1`, or nothing when the position of
/// either node is unknown.
pub fn way_edges(way: &WayInfo, lengths: &Vec<Option<u32>>) -> (r: Vec<GraphEdgeInput>)
    requires
        lengths@.len() + 1 == way.nodes@.len() || (lengths@.len() == 0 && way.nodes@.len() == 0),
    ensures
        r@ == way_edges_spec(*way, lengths@, lengths@.len() as int),
{
    let mut r: Vec<GraphEdgeInput> = Vec::new();
    let mut k: usize = 0;
    while k < lengths.len()
        invariant
            k <= lengths@.len(),
            lengths@.len() + 1 == way.nodes@.len() || (lengths@.len() == 0 && way.nodes@.len() == 0),
            r@ == way_edges_spec(*way, lengths@, k as int),
        decreases lengths@.len() - k,
    {
        let a = way.nodes[k];
        let b = way.nodes[k + 1];
        match lengths[k] {
            Some(len) => {
                r.push(
                    GraphEdgeInput {
                        from: a,
                        to: b,
                        distance_cm: len,
                        road_class: way.road_class,
                        speed_kmh: way.speed_kmh,
                        oneway: way.oneway,
                        name: clone_name(&way.name),
                    },
                );
                if !way.oneway {
                    r.push(
                        GraphEdgeInput {
                            from: b,
                            to: a,
                            distance_cm: len,
                            road_class: way.road_class,
                            speed_kmh: way.speed_kmh,
                            oneway: false,
                            name: clone_name(&way.name),
                        },
                    );
                }
            },
            None => {},
        }
        k = k + 1;
    }
    r
}

// ---------------------------------------------------------------------------
// Tile index file
// ---------------------------------------------------------------------------

/// The bytes of the coordinates of tiles `0..k`: x then y, each as four
/// little-endian bytes of two's complement.
pub open spec fn index_coords_bytes(coords: Seq<(i32, i32)>, k: int) -> Seq<u8>
    decreases k,
{
    if k <= 0 {
        Seq::empty()
    } else {
        index_coords_bytes(coords, k - 1) + le_bytes(coords[k - 1].0 as u32 as nat, 4) + le_bytes(
            coords[k - 1].1 as u32 as nat,
            4,
        )
    }
}

/// The tile index of a level: the tile count as four little-endian bytes,
/// then the coordinates of each tile.
pub fn encode_tile_index(coords: &Vec<(i32, i32)>) -> (r: Vec<u8>)
    requires
        coords@.len() <= u32::MAX,
    ensures
        r@ == le_bytes(coords@.len(), 4) + index_coords_bytes(coords@, coords@.len() as int),
{
    let mut out: Vec<u8> = Vec::new();
    push_le(&mut out, coords.len() as u64, 4);
    let ghost head = out@;
    let mut k: usize = 0;
    while k < coords.len()
        invariant
            k <= coords@.len(),
            head == le_bytes(coords@.len(), 4),
            out@ == head + index_coords_bytes(coords@, k as int),
        decreases coords@.len() - k,
    {
        let (x, y) = coords[k];
        push_le(&mut out, x as u32 as u64, 4);
        push_le(&mut out, y as u32 as u64, 4);
        assert(out@ =~= head + index_coords_bytes(coords@, k + 1));
        k = k + 1;
    }
    out
}


/// The little-endian 32-bit word at offset `i`.
pub open spec fn le_word(b: Seq<u8>, i: int) -> nat {
    le_value(b.subrange(i, i + 4))
}

/// The tiles a tile index lists: `None` unless the bytes are a count word
/// followed by exactly that many coordinate pairs of two words each.
pub open spec fn decoded_tile_index(b: Seq<u8>) -> Option<Seq<(i32, i32)>> {
    if b.len() >= 4 && b.len() == 4 + 8 * le_word(b, 0) {
        Some(
            Seq::new(
                le_word(b, 0),
                |k: int| (le_word(b, 4 + 8 * k) as u32 as i32, le_word(b, 8 + 8 * k) as u32 as i32),
            ),
        )
    } else {
        None
    }
}

/// Reads a tile index (as `encode_tile_index` writes it).
pub fn decode_tile_index(b: &[u8]) -> (r: Option<Vec<(i32, i32)>>)
    ensures
        r is Some <==> decoded_tile_index(b@) is Some,
        r matches Some(v) ==> v@ == decoded_tile_index(b@).unwrap(),
{
    if b.len() < 4 {
        return None;
    }
    let n = read_le(b, 0, 4);
    let rest = b.len() - 4;
    if rest % 8 != 0 || (rest / 8) as u64 != n {
        return None;
    }
    let ghost want = decoded_tile_index(b@).unwrap();
    let mut out: Vec<(i32, i32)> = Vec::new();
    let mut k: usize = 0;
    let count = rest / 8;
    while k < count
        invariant
            count == le_word(b@, 0),
            b@.len() == 4 + 8 * count,
            b.len() == 4 + 8 * count,
            want == decoded_tile_index(b@).unwrap(),
            k <= count,
            out@ == want.subrange(0, k as int),
        decreases count - k,
    {
        assert(8 * k + 12 <= 4 + 8 * count) by (nonlinear_arith)
            requires
                k < count,
        ;
        let x = read_le(b, 4 + 8 * k, 4) as u32 as i32;
        let y = read_le(b, 8 + 8 * k, 4) as u32 as i32;
        out.push((x, y));
        k = k + 1;
        assert(out@ =~= want.subrange(0, k as int));
    }
    assert(want.subrange(0, k as int) =~= want);
    Some(out)
}

/// The bytes of tile `j` sit at offset `8 * j` of the coordinate bytes.
proof fn lemma_index_coords_bytes(coords: Seq<(i32, i32)>, k: int)
    requires
        0 <= k <= coords.len(),
    ensures
        index_coords_bytes(coords, k).len() == 8 * k,
        forall|j: int|
            0 <= j < k ==> #[trigger] index_coords_bytes(coords, k).subrange(8 * j, 8 * j + 8)
                == le_bytes(coords[j].0 as u32 as nat, 4) + le_bytes(coords[j].1 as u32 as nat, 4),
    decreases k,
{
    if k > 0 {
        lemma_index_coords_bytes(coords, k - 1);
        lemma_pow256_values();
        lemma_le_roundtrip(coords[k - 1].0 as u32 as nat, 4);
        lemma_le_roundtrip(coords[k - 1].1 as u32 as nat, 4);
        let prev = index_coords_bytes(coords, k - 1);
        let whole = index_coords_bytes(coords, k);
        assert forall|j: int| 0 <= j < k implies #[trigger] whole.subrange(8 * j, 8 * j + 8)
            == le_bytes(coords[j].0 as u32 as nat, 4) + le_bytes(coords[j].1 as u32 as nat, 4) by {
            if j < k - 1 {
                assert(whole.subrange(8 * j, 8 * j + 8) =~= prev.subrange(8 * j, 8 * j + 8));
            } else {
                assert(whole.subrange(8 * j, 8 * j + 8) =~= le_bytes(coords[j].0 as u32 as nat, 4)
                    + le_bytes(coords[j].1 as u32 as nat, 4));
            }
        }
    }
}

/// Reading a tile index gives back the tiles it was written from.
pub proof fn lemma_tile_index_roundtrip(coords: Seq<(i32, i32)>)
    requires
        coords.len() <= u32::MAX,
    ensures
        decoded_tile_index(le_bytes(coords.len(), 4) + index_coords_bytes(coords, coords.len() as int))
            == Some(coords),
{
    let n = coords.len();
    let b = le_bytes(n, 4) + index_coords_bytes(coords, n as int);
    lemma_pow256_values();
    lemma_le_roundtrip(n, 4);
    lemma_index_coords_bytes(coords, n as int);
    assert(b.subrange(0, 4) =~= le_bytes(n, 4));
    assert(le_word(b, 0) == n);
    assert(b.len() == 4 + 8 * n);
    let d = decoded_tile_index(b).unwrap();
    assert forall|k: int| 0 <= k < n implies #[trigger] d[k] == coords[k] by {
        let c = index_coords_bytes(coords, n as int);
        let x = coords[k].0;
        let y = coords[k].1;
        assert(c.subrange(8 * k, 8 * k + 8) == le_bytes(x as u32 as nat, 4) + le_bytes(y as u32 as nat, 4));
        lemma_le_roundtrip(x as u32 as nat, 4);
        lemma_le_roundtrip(y as u32 as nat, 4);
        let pair = c.subrange(8 * k, 8 * k + 8);
        assert(pair.subrange(0, 4) =~= le_bytes(x as u32 as nat, 4));
        assert(pair.subrange(4, 8) =~= le_bytes(y as u32 as nat, 4));
        assert(b.subrange(4 + 8 * k, 8 + 8 * k) =~= pair.subrange(0, 4));
        assert(b.subrange(8 + 8 * k, 12 + 8 * k) =~= pair.subrange(4, 8));
        assert(x as u32 as i32 == x) by (bit_vector);
        assert(y as u32 as i32 == y) by (bit_vector);
    }
    assert(d =~= coords);
}

/// Every edge input of tile `t` comes from an edge stored in `t`.
proof fn lemma_tile_inputs_members(
    es: Seq<GraphEdgeInput>,
    o: Seq<i64>,
    pm: Map<i64, NodePlace>,
    level: HierarchyLevel,
    t: (i32, i32),
)
    ensures
        forall|k: int|
            0 <= k < tile_inputs(es, o, pm, level, t).len() ==> exists|j: int|
                0 <= j < es.len() && stored_in(es[j], pm, level, t) && #[trigger] tile_inputs(
                    es,
                    o,
                    pm,
                    level,
                    t,
                )[k] == tile_input(es[j], o, pm),
    decreases es.len(),
{
    if es.len() > 0 {
        let d = es.drop_last();
        lemma_tile_inputs_members(d, o, pm, level, t);
        let r = tile_inputs(d, o, pm, level, t);
        let full = tile_inputs(es, o, pm, level, t);
        assert forall|k: int| 0 <= k < full.len() implies exists|j: int|
            0 <= j < es.len() && stored_in(es[j], pm, level, t) && #[trigger] full[k] == tile_input(
                es[j],
                o,
                pm,
            ) by {
            if k < r.len() {
                let j = choose|j: int|
                    0 <= j < d.len() && stored_in(d[j], pm, level, t) && #[trigger] r[k] == tile_input(
                        d[j],
                        o,
                        pm,
                    );
                assert(full[k] == r[k]);
                assert(es[j] == d[j]);
            } else {
                assert(full[k] == tile_input(es[es.len() - 1], o, pm));
            }
        }
    }
}

/// Node `k` of tile `t` is node `ids[k]`: it has a place in the tile,
/// and the node stands at the place's coordinates.
pub open spec fn node_placed(t: RoutingTile, k: int, ids: Seq<i64>, pm: Map<i64, NodePlace>) -> bool {
    &&& pm.dom().contains(ids[k])
    &&& tile_of(pm, ids[k]) == (t.tile_x, t.tile_y)
    &&& t.nodes@[k].lat == pm[ids[k]].lat
    &&& t.nodes@[k].lon == pm[ids[k]].lon
}

/// The tiles that partitioning a level gives, when each has at most 2^16
/// nodes and its edges fit 32-bit indices: each is on the level; no two
/// share coordinates; node `k` of a tile is the `k`-th node (in first-use
/// order) whose place lies in that tile, at that place's coordinates; and
/// each has the layout of `tile_layout_ok` (consecutive edge blocks
/// covering its edges, edges reaching its nodes, cross-tile edges leaving
/// its nodes for other tiles, boundary list equal to their sources).
pub proof fn lemma_partition_tiles(
    edges: Seq<GraphEdgeInput>,
    places: Seq<(i64, NodePlace)>,
    level: HierarchyLevel,
    r: Seq<RoutingTile>,
)
    requires
        ({
            let pm = place_map(places);
            let o = node_order(edges, pm, level);
            let ts = tile_order(o, pm);
            &&& r.len() == ts.len()
            &&& forall|i: int|
                0 <= i < r.len() ==> built_tile(
                    #[trigger] r[i],
                    level,
                    ts[i].0,
                    ts[i].1,
                    node_coords(ids_in(o, pm, ts[i]), pm),
                    tile_inputs(edges, o, pm, level, ts[i]),
                )
        }),
        forall|i: int|
            0 <= i < r.len() ==> (#[trigger] r[i]).nodes@.len() <= 0x1_0000 && r[i].edges@.len()
                <= u32::MAX,
    ensures
        forall|i: int| 0 <= i < r.len() ==> (#[trigger] r[i]).level == level && tile_layout_ok(r[i]),
        forall|i: int, j: int|
            0 <= i < j < r.len() ==> (#[trigger] r[i].tile_x, r[i].tile_y) != (#[trigger] r[j].tile_x,
            r[j].tile_y),
        ({
            let pm = place_map(places);
            let o = node_order(edges, pm, level);
            forall|i: int, k: int|
                #![trigger r[i].nodes@[k]]
                0 <= i < r.len() && 0 <= k < r[i].nodes@.len() ==> node_placed(
                    r[i],
                    k,
                    ids_in(o, pm, (r[i].tile_x, r[i].tile_y)),
                    pm,
                )
        }),
{
    let pm = place_map(places);
    let o = node_order(edges, pm, level);
    let ts = tile_order(o, pm);
    lemma_node_order(edges, pm, level);
    lemma_tile_order(o, pm);
    assert forall|i: int| 0 <= i < r.len() implies (#[trigger] r[i]).level == level && tile_layout_ok(r[i]) by {
        let t = ts[i];
        let ids = ids_in(o, pm, t);
        let es = tile_inputs(edges, o, pm, level, t);
        assert(built_tile(r[i], level, t.0, t.1, node_coords(ids, pm), es));
        lemma_ids_in(o, pm, t);
        lemma_tile_inputs_members(edges, o, pm, level, t);
        let n = ids.len();
        assert forall|k: int| 0 <= k < es.len() implies (#[trigger] es[k]).from < n && (stays_in(
            es[k],
            t.0,
            t.1,
        ) ==> es[k].to_idx < n) by {
            let j = choose|j: int|
                0 <= j < edges.len() && stored_in(edges[j], pm, level, t) && #[trigger] es[k]
                    == tile_input(edges[j], o, pm);
            let e = edges[j];
            lemma_node_order_covers(edges, pm, level, j);
            assert(ids.contains(e.from));
            let a = ids.index_of(e.from);
            assert(0 <= a < n);
            if stays_in(es[k], t.0, t.1) {
                assert(tile_of(pm, e.to) == t);
                assert(ids.contains(e.to));
                let b = ids.index_of(e.to);
                assert(0 <= b < n);
            }
        }
        lemma_built_tile_layout(r[i], level, t.0, t.1, node_coords(ids, pm), es);
    }
    assert forall|i: int, j: int| 0 <= i < j < r.len() implies (#[trigger] r[i].tile_x, r[i].tile_y)
        != (#[trigger] r[j].tile_x, r[j].tile_y) by {
        assert(built_tile(r[i], level, ts[i].0, ts[i].1, node_coords(ids_in(o, pm, ts[i]), pm), tile_inputs(edges, o, pm, level, ts[i])));
        assert(built_tile(r[j], level, ts[j].0, ts[j].1, node_coords(ids_in(o, pm, ts[j]), pm), tile_inputs(edges, o, pm, level, ts[j])));
    }
    assert forall|i: int, k: int|
        0 <= i < r.len() && 0 <= k < r[i].nodes@.len() implies #[trigger] node_placed(
        r[i],
        k,
        ids_in(o, pm, (r[i].tile_x, r[i].tile_y)),
        pm,
    ) by {
        let t = ts[i];
        let ids = ids_in(o, pm, t);
        assert(built_tile(r[i], level, t.0, t.1, node_coords(ids, pm), tile_inputs(edges, o, pm, level, t)));
        lemma_ids_in(o, pm, t);
        assert((r[i].tile_x, r[i].tile_y) == t);
        assert(r[i].nodes@.len() == ids.len());
        assert(ids.contains(ids[k]));
        assert(o.contains(ids[k]));
        assert(tile_of(pm, ids[k]) == t);
        assert(pm.dom().contains(ids[k]));
        assert(r[i].nodes@[k] == r[i].nodes@[k]);
        assert(node_placed(r[i], k, ids, pm));
    }
}

} // verus!
