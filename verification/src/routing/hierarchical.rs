//! A* search across routing tiles and hierarchy levels, with tiles loaded
//! on demand.
//!
//! The search is a state machine. Each call of `advance` runs one step and
//! says what it needs to go on: a tile that is not in the cache (the caller
//! reads it from disk and stores it in the cache), the tile positions of a
//! node's location (computed from its coordinates), or heuristic values for
//! a list of points. The search itself (open set, costs, parent links,
//! expansion of a node along same-tile, cross-tile and canonical-tile
//! edges and level transitions, and path reconstruction) is done here.
use vstd::prelude::*;

use vstd::hash_map::HashMapWithView;

use crate::routing::cache::TileCache;
use crate::routing::algorithm::first_edge_to;
use crate::routing::hierarchy::{other_levels, same_node, transition_levels, GlobalNodeId};
use crate::routing::router::lemma_first_edge_to_exact;
use crate::routing::types::{
    cross_edges_from, level_index, travel_weight, CrossTileEdge, HierarchyLevel, RoutingEdge, RoutingNode,
    RoutingTile,
};

verus! {

broadcast use vstd::std_specs::hash::group_hash_axioms;

// ---------------------------------------------------------------------------
// The search graph
// ---------------------------------------------------------------------------

/// The id of node `target` of tile `t`, held at position `pos`.
pub open spec fn tile_node_id(t: RoutingTile, pos: (HierarchyLevel, i32, i32), target: u32) -> GlobalNodeId {
    GlobalNodeId {
        level: pos.0,
        tile_x: pos.1,
        tile_y: pos.2,
        node_idx: target,
        lat_micro: t.nodes@[target as int].lat,
        lon_micro: t.nodes@[target as int].lon,
    }
}

/// `b` is reached from node `u` of tile `t` (held at `pos`) along one of
/// `u`'s edges.
pub open spec fn edge_step(t: RoutingTile, pos: (HierarchyLevel, i32, i32), u: int, b: GlobalNodeId) -> bool {
    exists|j: int|
        0 <= j < t.out_edges(u).len() && #[trigger] t.out_edges(u)[j].target < t.nodes@.len() && b
            == tile_node_id(t, pos, t.out_edges(u)[j].target)
}

/// Node `i` of tile `t` lies at the given coordinates.
pub open spec fn node_at(t: RoutingTile, i: int, lat: i32, lon: i32) -> bool {
    0 <= i < t.nodes@.len() && t.nodes@[i].lat == lat && t.nodes@[i].lon == lon
}

/// A step from `a` to `b` shown by one tile `t` held at `pos`: an edge of
/// `a` in its own tile; an edge of a node at `a`'s location in a tile of
/// `a`'s level; or, when the search may change levels, the node at `a`'s
/// location on a neighbouring level.
pub open spec fn tile_step(
    pos: (HierarchyLevel, i32, i32),
    t: RoutingTile,
    a: GlobalNodeId,
    b: GlobalNodeId,
    levels: bool,
) -> bool {
    ||| pos == (a.level, a.tile_x, a.tile_y) && edge_step(t, pos, a.node_idx as int, b)
    ||| pos.0 == a.level && exists|i: int|
        node_at(t, i, a.lat_micro, a.lon_micro) && #[trigger] edge_step(t, pos, i, b)
    ||| levels && transition_levels(a.level).contains(pos.0) && b.level == pos.0 && b.tile_x
        == pos.1 && b.tile_y == pos.2 && b.lat_micro == a.lat_micro && b.lon_micro
        == a.lon_micro && node_at(t, b.node_idx as int, a.lat_micro, a.lon_micro)
}

/// A step along a cross-tile edge of `a`, stored in `a`'s tile `t1`, to a
/// node of the tile `t2` held at `p2`.
pub open spec fn cross_step(
    p1: (HierarchyLevel, i32, i32),
    t1: RoutingTile,
    p2: (HierarchyLevel, i32, i32),
    t2: RoutingTile,
    a: GlobalNodeId,
    b: GlobalNodeId,
) -> bool {
    &&& p1 == (a.level, a.tile_x, a.tile_y)
    &&& p2.0 == a.level
    &&& exists|j: int|
        0 <= j < cross_edges_from(t1.cross_tile_edges@, a.node_idx).len() && p2.1
            == #[trigger] cross_edges_from(t1.cross_tile_edges@, a.node_idx)[j].target_tile_x
            && p2.2 == cross_edges_from(t1.cross_tile_edges@, a.node_idx)[j].target_tile_y
            && cross_edges_from(t1.cross_tile_edges@, a.node_idx)[j].target_node < t2.nodes@.len()
            && b == tile_node_id(
            t2,
            p2,
            cross_edges_from(t1.cross_tile_edges@, a.node_idx)[j].target_node,
        )
}

/// `b` follows `a` in the search graph made of the tiles in `seen`.
pub open spec fn search_step(
    seen: Set<((HierarchyLevel, i32, i32), RoutingTile)>,
    a: GlobalNodeId,
    b: GlobalNodeId,
    levels: bool,
) -> bool {
    ||| exists|p: (HierarchyLevel, i32, i32), t: RoutingTile|
        #[trigger] seen.contains((p, t)) && tile_step(p, t, a, b, levels)
    ||| exists|p1: (HierarchyLevel, i32, i32), t1: RoutingTile, p2: (HierarchyLevel, i32, i32), t2: RoutingTile|
        #[trigger] seen.contains((p1, t1)) && #[trigger] seen.contains((p2, t2)) && cross_step(
            p1,
            t1,
            p2,
            t2,
            a,
            b,
        )
}

/// `c` is, up to its tile, a node that follows `a` in the search graph of
/// the tiles in `seen`.
pub open spec fn step_to(
    seen: Set<((HierarchyLevel, i32, i32), RoutingTile)>,
    a: GlobalNodeId,
    c: GlobalNodeId,
    levels: bool,
) -> bool {
    exists|b: GlobalNodeId| same_node(b, c) && #[trigger] search_step(seen, a, b, levels)
}

/// Steps stay valid when more tiles are seen.
proof fn lemma_search_step_grows(
    seen: Set<((HierarchyLevel, i32, i32), RoutingTile)>,
    more: Set<((HierarchyLevel, i32, i32), RoutingTile)>,
    a: GlobalNodeId,
    b: GlobalNodeId,
    levels: bool,
)
    requires
        seen.subset_of(more),
        search_step(seen, a, b, levels),
    ensures
        search_step(more, a, b, levels),
{
    if exists|p: (HierarchyLevel, i32, i32), t: RoutingTile|
        #[trigger] seen.contains((p, t)) && tile_step(p, t, a, b, levels) {
        let (p, t) = choose|p: (HierarchyLevel, i32, i32), t: RoutingTile|
            #[trigger] seen.contains((p, t)) && tile_step(p, t, a, b, levels);
        assert(more.contains((p, t)));
    } else {
        let (p1, t1, p2, t2) = choose|
            p1: (HierarchyLevel, i32, i32),
            t1: RoutingTile,
            p2: (HierarchyLevel, i32, i32),
            t2: RoutingTile,
        |
            #[trigger] seen.contains((p1, t1)) && #[trigger] seen.contains((p2, t2)) && cross_step(
                p1,
                t1,
                p2,
                t2,
                a,
                b,
            );
        assert(more.contains((p1, t1)));
        assert(more.contains((p2, t2)));
    }
}

/// On one level, a step of the search graph stays on the level.
proof fn lemma_step_keeps_level(
    seen: Set<((HierarchyLevel, i32, i32), RoutingTile)>,
    a: GlobalNodeId,
    c: GlobalNodeId,
)
    requires
        step_to(seen, a, c, false),
    ensures
        c.level == a.level,
{
    let b = choose|b: GlobalNodeId| same_node(b, c) && #[trigger] search_step(seen, a, b, false);
    if exists|p: (HierarchyLevel, i32, i32), t: RoutingTile|
        #[trigger] seen.contains((p, t)) && tile_step(p, t, a, b, false) {
        let (p, t) = choose|p: (HierarchyLevel, i32, i32), t: RoutingTile|
            #[trigger] seen.contains((p, t)) && tile_step(p, t, a, b, false);
        if pos_own(p, a) && edge_step(t, p, a.node_idx as int, b) {
        } else {
            let i = choose|i: int| node_at(t, i, a.lat_micro, a.lon_micro) && #[trigger] edge_step(t, p, i, b);
        }
    } else {
        let (p1, t1, p2, t2) = choose|
            p1: (HierarchyLevel, i32, i32),
            t1: RoutingTile,
            p2: (HierarchyLevel, i32, i32),
            t2: RoutingTile,
        |
            #[trigger] seen.contains((p1, t1)) && #[trigger] seen.contains((p2, t2)) && cross_step(
                p1,
                t1,
                p2,
                t2,
                a,
                b,
            );
    }
}

/// `p` is `a`'s tile position.
spec fn pos_own(p: (HierarchyLevel, i32, i32), a: GlobalNodeId) -> bool {
    p == (a.level, a.tile_x, a.tile_y)
}

/// On one level, every node of a route lies on the start's level.
pub proof fn lemma_route_on_level(
    start: GlobalNodeId,
    end: GlobalNodeId,
    seen: Set<((HierarchyLevel, i32, i32), RoutingTile)>,
    route: HierarchicalRoute,
)
    requires
        route_ok(start, end, false, seen, route),
    ensures
        forall|i: int| 0 <= i < route.path@.len() ==> (#[trigger] route.path@[i]).level == start.level,
{
    let p = route.path@;
    assert forall|i: int| 0 <= i < p.len() implies (#[trigger] p[i]).level == start.level by {
        lemma_prefix_on_level(seen, p, i);
    }
}

proof fn lemma_prefix_on_level(
    seen: Set<((HierarchyLevel, i32, i32), RoutingTile)>,
    p: Seq<GlobalNodeId>,
    i: int,
)
    requires
        0 <= i < p.len(),
        forall|j: int| 1 <= j < p.len() ==> step_to(seen, p[j - 1], #[trigger] p[j], false),
    ensures
        p[i].level == p[0].level,
    decreases i,
{
    if i > 0 {
        lemma_prefix_on_level(seen, p, i - 1);
        assert(step_to(seen, p[i - 1], p[i], false));
        lemma_step_keeps_level(seen, p[i - 1], p[i]);
    }
}

// ---------------------------------------------------------------------------
// Node identity keys
// ---------------------------------------------------------------------------

/// A number that identifies a node by level and coordinates.
pub open spec fn ident_value(id: GlobalNodeId) -> int {
    level_index(id.level) * 0x1_0000_0000_0000_0000 + (id.lat_micro + 0x8000_0000) * 0x1_0000_0000
        + (id.lon_micro + 0x8000_0000)
}

/// The identity key of a node.
pub open spec fn ident(id: GlobalNodeId) -> u128 {
    ident_value(id) as u128
}

proof fn lemma_ident(a: GlobalNodeId, b: GlobalNodeId)
    ensures
        0 <= ident_value(a) < 0x3_0000_0000_0000_0000,
        ident(a) as int == ident_value(a),
        ident(a) == ident(b) <==> same_node(a, b),
{
    lemma_ident_value(a, b);
    lemma_ident_value(b, a);
}

proof fn lemma_ident_value(a: GlobalNodeId, b: GlobalNodeId)
    ensures
        0 <= ident_value(a) < 0x3_0000_0000_0000_0000,
        ident_value(a) == ident_value(b) <==> same_node(a, b),
{
    let la = level_index(a.level);
    let lb = level_index(b.level);
    let xa = a.lat_micro + 0x8000_0000;
    let xb = b.lat_micro + 0x8000_0000;
    let ya = a.lon_micro + 0x8000_0000;
    let yb = b.lon_micro + 0x8000_0000;
    assert(0 <= xa < 0x1_0000_0000 && 0 <= xb < 0x1_0000_0000);
    assert(0 <= ya < 0x1_0000_0000 && 0 <= yb < 0x1_0000_0000);
    assert(0 <= la <= 2 && 0 <= lb <= 2);
    assert(ident_value(a) == la * 0x1_0000_0000_0000_0000 + xa * 0x1_0000_0000 + ya);
    assert(ident_value(b) == lb * 0x1_0000_0000_0000_0000 + xb * 0x1_0000_0000 + yb);
    assert(0 <= ident_value(a) < 0x3_0000_0000_0000_0000) by (nonlinear_arith)
        requires
            ident_value(a) == la * 0x1_0000_0000_0000_0000 + xa * 0x1_0000_0000 + ya,
            0 <= xa < 0x1_0000_0000,
            0 <= ya < 0x1_0000_0000,
            0 <= la <= 2,
    ;
    if ident_value(a) == ident_value(b) {
        assert(la == lb && xa == xb && ya == yb) by (nonlinear_arith)
            requires
                la * 0x1_0000_0000_0000_0000 + xa * 0x1_0000_0000 + ya == lb * 0x1_0000_0000_0000_0000
                    + xb * 0x1_0000_0000 + yb,
                0 <= xa < 0x1_0000_0000,
                0 <= ya < 0x1_0000_0000,
                0 <= xb < 0x1_0000_0000,
                0 <= yb < 0x1_0000_0000,
                0 <= la <= 2,
                0 <= lb <= 2,
        ;
    }
}

/// The identity key of a node.
fn ident_key(id: &GlobalNodeId) -> (r: u128)
    ensures
        r == ident(*id),
{
    proof {
        lemma_ident(*id, *id);
    }
    let l = id.level.index() as u128;
    let x = (id.lat_micro as i64 + 0x8000_0000i64) as u128;
    let y = (id.lon_micro as i64 + 0x8000_0000i64) as u128;
    l * 0x1_0000_0000_0000_0000u128 + x * 0x1_0000_0000u128 + y
}

// ---------------------------------------------------------------------------
// Search state: discovered nodes, open set, parent links
// ---------------------------------------------------------------------------

/// A node found by the search.
struct SearchSlot {
    /// The node; once closed, the id it was expanded with.
    id: GlobalNodeId,
    /// Best known cost from the start.
    g: u32,
    /// Slot of the node it was reached from (none for the start).
    parent: Option<usize>,
    /// Whether the node has been expanded.
    closed: bool,
    /// The id that the step from the parent led to (same location as `id`).
    via: Ghost<GlobalNodeId>,
    /// When the node was closed.
    stamp: Ghost<nat>,
}

/// An entry of the open set.
#[derive(Clone, Copy)]
struct OpenEntry {
    id: GlobalNodeId,
    g: u32,
    f: u32,
}

/// Nodes, costs, parent links and the open set of one search.
struct SearchCore {
    start: GlobalNodeId,
    levels: bool,
    index: HashMapWithView<u128, usize>,
    slots: Vec<SearchSlot>,
    open: Vec<OpenEntry>,
    clock: Ghost<nat>,
    seen: Ghost<Set<((HierarchyLevel, i32, i32), RoutingTile)>>,
}

impl SearchCore {
    /// Slot `i` is linked to its parent by a step of the search graph.
    spec fn slot_linked(&self, i: int) -> bool {
        let s = self.slots@[i];
        match s.parent {
            Some(p) => {
                &&& (p as int) < self.slots@.len()
                &&& self.slots@[p as int].closed
                &&& search_step(self.seen@, self.slots@[p as int].id, s.via@, self.levels)
                &&& same_node(s.via@, s.id)
                &&& s.closed ==> self.slots@[p as int].stamp@ < s.stamp@
            },
            None => i == 0,
        }
    }

    spec fn wf(&self) -> bool {
        &&& self.slots@.len() >= 1
        &&& self.slots@[0].id == self.start
        &&& self.slots@[0].parent is None
        &&& self.slots@[0].g == 0
        &&& forall|k: u128|
            #[trigger] self.index@.contains_key(k) ==> (self.index@[k] as int) < self.slots@.len()
                && ident(self.slots@[self.index@[k] as int].id) == k
        &&& forall|i: int|
            0 <= i < self.slots@.len() ==> #[trigger] self.index@.contains_key(
                ident(self.slots@[i].id),
            ) && self.index@[ident(self.slots@[i].id)] == i
        &&& forall|i: int| 0 <= i < self.slots@.len() ==> #[trigger] self.slot_linked(i)
        &&& forall|i: int|
            0 <= i < self.slots@.len() && #[trigger] self.slots@[i].closed ==> self.slots@[i].stamp@
                < self.clock@
        &&& forall|j: int|
            0 <= j < self.open@.len() ==> #[trigger] self.index@.contains_key(
                ident(self.open@[j].id),
            ) && (self.index@[ident(self.open@[j].id)] == 0 ==> self.open@[j].id == self.start)
    }

    /// Reaching `cand` at cost `tentative` improves on what the search
    /// knows: the node is new, or open and known only at a higher cost.
    spec fn improves(&self, cand: GlobalNodeId, tentative: u32) -> bool {
        let k = ident(cand);
        !self.index@.contains_key(k) || (!self.slots@[self.index@[k] as int].closed && tentative
            < self.slots@[self.index@[k] as int].g)
    }

    /// What `relax` does (see there).
    spec fn relax_post(&self, next: &SearchCore, from: usize, cand: GlobalNodeId, tentative: u32, h: u32) -> bool {
        &&& next.wf()
        &&& self.grows_to(next)
        &&& !self.improves(cand, tentative) ==> next.slots@ == self.slots@ && next.open@
            == self.open@ && next.index@ == self.index@
        &&& self.improves(cand, tentative) ==> {
            &&& next.open@ == self.open@.push(
                OpenEntry { id: cand, g: tentative, f: tentative.saturating_add(h) },
            )
            &&& self.index@.contains_key(ident(cand)) ==> next.index@ == self.index@
                && next.slots@.len() == self.slots@.len()
            &&& !self.index@.contains_key(ident(cand)) ==> next.index@ == self.index@.insert(
                ident(cand),
                self.slots@.len() as usize,
            ) && next.slots@.len() == self.slots@.len() + 1
            &&& next.index@.contains_key(ident(cand))
            &&& next.slots@[next.index@[ident(cand)] as int].id == cand
            &&& next.slots@[next.index@[ident(cand)] as int].g == tentative
            &&& next.slots@[next.index@[ident(cand)] as int].parent == Some(from)
            &&& !next.slots@[next.index@[ident(cand)] as int].closed
            &&& forall|m: int|
                0 <= m < self.slots@.len() && m != next.index@[ident(cand)] ==> #[trigger] next.slots@[m]
                    == self.slots@[m]
        }
    }

    /// The best known cost of the node at `id`'s location.
    spec fn known_in(&self, id: GlobalNodeId) -> Option<u32> {
        let k = ident(id);
        if self.index@.contains_key(k) {
            Some(self.slots@[self.index@[k] as int].g)
        } else {
            None
        }
    }

    /// The node at `id`'s location has been expanded.
    spec fn expanded_in(&self, id: GlobalNodeId) -> bool {
        let k = ident(id);
        self.index@.contains_key(k) && self.slots@[self.index@[k] as int].closed
    }

    /// The node that the node at `id`'s location was reached from.
    spec fn parent_in(&self, id: GlobalNodeId) -> Option<GlobalNodeId> {
        let k = ident(id);
        if self.index@.contains_key(k) {
            match self.slots@[self.index@[k] as int].parent {
                Some(p) => Some(self.slots@[p as int].id),
                None => None,
            }
        } else {
            None
        }
    }

    /// The open set as `(node, cost, priority)` entries.
    spec fn open_view(&self) -> Seq<(GlobalNodeId, u32, u32)> {
        self.open@.map_values(|e: OpenEntry| (e.id, e.g, e.f))
    }

    /// What stays fixed while the search runs.
    spec fn grows_to(&self, other: &SearchCore) -> bool {
        &&& self.start == other.start
        &&& self.levels == other.levels
        &&& self.seen@ == other.seen@
        &&& self.slots@.len() <= other.slots@.len()
        &&& forall|i: int|
            0 <= i < self.slots@.len() && #[trigger] self.slots@[i].closed ==> other.slots@[i]
                == self.slots@[i]
    }

    fn new(start: GlobalNodeId, levels: bool) -> (r: Self)
        ensures
            r.wf(),
            r.start == start,
            r.levels == levels,
            r.open@.len() == 0,
            r.slots@.len() == 1,
            !r.slots@[0].closed,
            r.seen@ == Set::<((HierarchyLevel, i32, i32), RoutingTile)>::empty(),
    {
        let mut index: HashMapWithView<u128, usize> = HashMapWithView::new();
        let k = ident_key(&start);
        index.insert(k, 0);
        let mut slots: Vec<SearchSlot> = Vec::new();
        slots.push(
            SearchSlot {
                id: start,
                g: 0,
                parent: None,
                closed: false,
                via: Ghost(start),
                stamp: Ghost(0),
            },
        );
        let r = SearchCore {
            start,
            levels,
            index,
            slots,
            open: Vec::new(),
            clock: Ghost(0),
            seen: Ghost(Set::empty()),
        };
        proof {
            lemma_ident(start, start);
            assert forall|k2: u128| #[trigger] r.index@.contains_key(k2) implies (r.index@[k2] as int)
                < r.slots@.len() && ident(r.slots@[r.index@[k2] as int].id) == k2 by {
                assert(k2 == k);
            }
            assert(r.slot_linked(0));
        }
        r
    }

    /// The slot of the node at `id`'s location, if the search has found it.
    fn find(&self, id: &GlobalNodeId) -> (r: Option<usize>)
        requires
            self.wf(),
        ensures
            match r {
                Some(i) => (i as int) < self.slots@.len() && same_node(self.slots@[i as int].id, *id)
                    && self.index@.contains_key(ident(*id)) && self.index@[ident(*id)] == i,
                None => !self.index@.contains_key(ident(*id)) && forall|i: int|
                    0 <= i < self.slots@.len() ==> !same_node(#[trigger] self.slots@[i].id, *id),
            },
    {
        let k = ident_key(id);
        match self.index.get(&k) {
            Some(i) => {
                proof {
                    lemma_ident(self.slots@[*i as int].id, *id);
                }
                Some(*i)
            },
            None => {
                proof {
                    assert forall|i: int| 0 <= i < self.slots@.len() implies !same_node(
                        #[trigger] self.slots@[i].id,
                        *id,
                    ) by {
                        lemma_ident(self.slots@[i].id, *id);
                    }
                }
                None
            },
        }
    }

    /// Start the search: the start node enters the open set.
    fn push_start(&mut self, f: u32)
        requires
            old(self).wf(),
        ensures
            final(self).wf(),
            old(self).grows_to(&*final(self)),
            final(self).slots@ == old(self).slots@,
            final(self).open@ == old(self).open@.push(OpenEntry { id: old(self).start, g: 0, f }),
    {
        let e = OpenEntry { id: self.start, g: 0, f };
        proof {
            assert(self.index@.contains_key(ident(self.slots@[0].id)));
        }
        self.open.push(e);
        proof {
            assert forall|j: int| 0 <= j < self.open@.len() implies #[trigger] self.index@.contains_key(
                ident(self.open@[j].id),
            ) && (self.index@[ident(self.open@[j].id)] == 0 ==> self.open@[j].id == self.start) by {
                if j < self.open@.len() - 1 {
                    assert(old(self).open@[j] == self.open@[j]);
                }
            }
            assert forall|i: int| 0 <= i < self.slots@.len() implies #[trigger] self.slot_linked(i) by {
                assert(old(self).slot_linked(i));
            }
        }
    }

    /// Relaxes the step from closed slot `from` to `cand`, reached at cost
    /// `tentative`: a node not closed and not known at a lower cost takes
    /// `from` as its parent and enters the open set with priority
    /// `tentative + h` (saturating).
    #[verifier::spinoff_prover]
    #[verifier::rlimit(40)]
    fn relax(&mut self, from: usize, cand: GlobalNodeId, tentative: u32, h: u32)
        requires
            old(self).wf(),
            (from as int) < old(self).slots@.len(),
            old(self).slots@[from as int].closed,
            search_step(old(self).seen@, old(self).slots@[from as int].id, cand, old(self).levels),
        ensures
            final(self).wf(),
            old(self).grows_to(&*final(self)),
            !old(self).improves(cand, tentative) ==> final(self).slots@ == old(self).slots@
                && final(self).open@ == old(self).open@ && final(self).index@ == old(self).index@,
            old(self).improves(cand, tentative) ==> {
                &&& final(self).open@ == old(self).open@.push(
                    OpenEntry { id: cand, g: tentative, f: tentative.saturating_add(h) },
                )
                &&& old(self).index@.contains_key(ident(cand)) ==> final(self).index@
                    == old(self).index@ && final(self).slots@.len() == old(self).slots@.len()
                &&& !old(self).index@.contains_key(ident(cand)) ==> final(self).index@
                    == old(self).index@.insert(ident(cand), old(self).slots@.len() as usize)
                    && final(self).slots@.len() == old(self).slots@.len() + 1
                &&& final(self).index@.contains_key(ident(cand))
                &&& final(self).slots@[final(self).index@[ident(cand)] as int].id == cand
                &&& final(self).slots@[final(self).index@[ident(cand)] as int].g == tentative
                &&& final(self).slots@[final(self).index@[ident(cand)] as int].parent == Some(from)
                &&& !final(self).slots@[final(self).index@[ident(cand)] as int].closed
                &&& forall|m: int|
                    0 <= m < old(self).slots@.len() && m != final(self).index@[ident(cand)]
                        ==> #[trigger] final(self).slots@[m] == old(self).slots@[m]
            },
            forall|k: u128|
                #[trigger] old(self).index@.contains_key(k) ==> final(self).index@.contains_key(k)
                    && final(self).index@[k] == old(self).index@[k],
            forall|m: int|
                0 <= m < old(self).slots@.len() ==> #[trigger] final(self).slots@[m].closed
                    == old(self).slots@[m].closed && final(self).slots@[m].g <= old(self).slots@[m].g,
            final(self).index@.contains_key(ident(cand)),
            final(self).slots@[final(self).index@[ident(cand)] as int].closed
                || final(self).slots@[final(self).index@[ident(cand)] as int].g <= tentative,
            old(self).relax_post(&*final(self), from, cand, tentative, h),
    {
        let found = self.find(&cand);
        let ghost old_self = *self;
        match found {
            Some(i) => {
                if self.slots[i].closed {
                    return;
                }
                if !(tentative < self.slots[i].g) {
                    return;
                }
                proof {
                    if i == 0 {
                        assert(self.slots@[0].g == 0);
                    }
                }
                let slot = SearchSlot {
                    id: cand,
                    g: tentative,
                    parent: Some(from),
                    closed: false,
                    via: Ghost(cand),
                    stamp: Ghost(0),
                };
                self.slots.set(i, slot);
                proof {
                    lemma_ident(cand, old_self.slots@[i as int].id);
                    assert forall|k: u128| #[trigger] self.index@.contains_key(k) implies (
                    self.index@[k] as int) < self.slots@.len() && ident(
                        self.slots@[self.index@[k] as int].id,
                    ) == k by {
                        assert(old_self.index@.contains_key(k));
                    }
                    assert forall|j: int| 0 <= j < self.slots@.len() implies #[trigger] self.index@.contains_key(
                        ident(self.slots@[j].id),
                    ) && self.index@[ident(self.slots@[j].id)] == j by {
                        assert(old_self.index@.contains_key(ident(old_self.slots@[j].id)));
                    }
                    assert forall|j: int| 0 <= j < self.slots@.len() implies #[trigger] self.slot_linked(j) by {
                        assert(old_self.slot_linked(j));
                        lemma_ident(cand, cand);
                    }
                }
            },
            None => {
                let n = self.slots.len();
                let slot = SearchSlot {
                    id: cand,
                    g: tentative,
                    parent: Some(from),
                    closed: false,
                    via: Ghost(cand),
                    stamp: Ghost(0),
                };
                self.slots.push(slot);
                let k = ident_key(&cand);
                self.index.insert(k, n);
                proof {
                    assert forall|k2: u128| #[trigger] self.index@.contains_key(k2) implies (
                    self.index@[k2] as int) < self.slots@.len() && ident(
                        self.slots@[self.index@[k2] as int].id,
                    ) == k2 by {
                        if k2 != k {
                            assert(old_self.index@.contains_key(k2));
                        }
                    }
                    assert forall|j: int| 0 <= j < self.slots@.len() implies #[trigger] self.index@.contains_key(
                        ident(self.slots@[j].id),
                    ) && self.index@[ident(self.slots@[j].id)] == j by {
                        if j < n {
                            assert(old_self.index@.contains_key(ident(old_self.slots@[j].id)));
                            lemma_ident(old_self.slots@[j].id, cand);
                        }
                    }
                    assert forall|j: int| 0 <= j < self.slots@.len() implies #[trigger] self.slot_linked(j) by {
                        if j < n {
                            assert(old_self.slot_linked(j));
                        }
                        lemma_ident(cand, cand);
                    }
                    assert forall|j: int| 0 <= j < self.open@.len() implies #[trigger] self.index@.contains_key(
                        ident(self.open@[j].id),
                    ) && (self.index@[ident(self.open@[j].id)] == 0 ==> self.open@[j].id == self.start) by {
                        assert(old_self.index@.contains_key(ident(old_self.open@[j].id)));
                        lemma_ident(old_self.open@[j].id, cand);
                    }
                }
            },
        }
        let ghost mid = *self;
        let f = tentative.saturating_add(h);
        self.open.push(OpenEntry { id: cand, g: tentative, f });
        proof {
            lemma_ident(cand, cand);
            assert forall|j: int| 0 <= j < self.open@.len() implies #[trigger] self.index@.contains_key(
                ident(self.open@[j].id),
            ) && (self.index@[ident(self.open@[j].id)] == 0 ==> self.open@[j].id == self.start) by {
                if j < self.open@.len() - 1 {
                    assert(mid.open@[j] == self.open@[j]);
                } else {
                    if self.index@[ident(cand)] == 0 {
                        assert(self.slots@[0].g == 0);
                    }
                }
            }
            assert forall|j: int| 0 <= j < self.slots@.len() implies #[trigger] self.slot_linked(j) by {
                assert(mid.slot_linked(j));
            }
        }
    }

    /// Takes an entry of lowest priority out of the open set.
    #[verifier::spinoff_prover]
    #[verifier::rlimit(40)]
    fn pop_min(&mut self) -> (r: Option<OpenEntry>)
        requires
            old(self).wf(),
        ensures
            final(self).wf(),
            old(self).grows_to(&*final(self)),
            final(self).slots@ == old(self).slots@,
            final(self).index@ == old(self).index@,
            match r {
                None => old(self).open@.len() == 0 && final(self).open@ == old(self).open@,
                Some(e) => exists|j: int|
                    0 <= j < old(self).open@.len() && old(self).open@[j] == e && final(self).open@
                        == old(self).open@.remove(j) && forall|k: int|
                        0 <= k < old(self).open@.len() ==> e.f <= #[trigger] old(self).open@[k].f,
            },
            r matches Some(e) ==> final(self).index@.contains_key(ident(e.id)) && (
            final(self).index@[ident(e.id)] == 0 ==> e.id == final(self).start),
    {
        if self.open.len() == 0 {
            return None;
        }
        let mut best: usize = 0;
        let mut j: usize = 1;
        while j < self.open.len()
            invariant
                1 <= j <= self.open@.len(),
                best < j,
                forall|k: int| 0 <= k < j ==> self.open@[best as int].f <= #[trigger] self.open@[k].f,
            decreases self.open@.len() - j,
        {
            if self.open[j].f < self.open[best].f {
                best = j;
            }
            j = j + 1;
        }
        let ghost old_self = *self;
        let e = self.open.remove(best);
        proof {
            assert(old_self.index@.contains_key(ident(old_self.open@[best as int].id)));
            assert forall|k: int| 0 <= k < self.open@.len() implies #[trigger] self.index@.contains_key(
                ident(self.open@[k].id),
            ) && (self.index@[ident(self.open@[k].id)] == 0 ==> self.open@[k].id == self.start) by {
                if k < best {
                    assert(self.open@[k] == old_self.open@[k]);
                } else {
                    assert(self.open@[k] == old_self.open@[k + 1]);
                }
            }
            assert forall|i: int| 0 <= i < self.slots@.len() implies #[trigger] self.slot_linked(i) by {
                assert(old_self.slot_linked(i));
            }
        }
        Some(e)
    }

    /// Closes the node of a popped entry, expanded with the entry's id;
    /// `None` when that node was already closed.
    fn close(&mut self, e: OpenEntry) -> (r: Option<usize>)
        requires
            old(self).wf(),
            old(self).index@.contains_key(ident(e.id)),
            old(self).index@[ident(e.id)] == 0 ==> e.id == old(self).start,
        ensures
            final(self).wf(),
            old(self).grows_to(&*final(self)),
            final(self).open@ == old(self).open@,
            final(self).slots@.len() == old(self).slots@.len(),
            match r {
                None => final(self).slots@ == old(self).slots@ && (old(self).index@[ident(e.id)] as int)
                    < old(self).slots@.len() && old(self).slots@[old(self).index@[ident(
                    e.id,
                )] as int].closed,
                Some(i) => (i as int) < final(self).slots@.len() && i == old(self).index@[ident(e.id)]
                    && !old(self).slots@[i as int].closed && final(self).slots@[i as int].closed
                    && final(self).slots@[i as int].id == e.id,
            },
    {
        let found = self.find(&e.id);
        let i = match found {
            Some(i) => i,
            None => {
                proof {
                    assert(false);
                }
                return None;
            },
        };
        if self.slots[i].closed {
            return None;
        }
        let ghost old_self = *self;
        let ghost t = self.clock@;
        let old_slot = &self.slots[i];
        let slot = SearchSlot {
            id: e.id,
            g: old_slot.g,
            parent: old_slot.parent,
            closed: true,
            via: Ghost(old_slot.via@),
            stamp: Ghost(t),
        };
        self.slots.set(i, slot);
        self.clock = Ghost(t + 1);
        proof {
            lemma_ident(e.id, old_self.slots@[i as int].id);
            assert forall|k: u128| #[trigger] self.index@.contains_key(k) implies (self.index@[k] as int)
                < self.slots@.len() && ident(self.slots@[self.index@[k] as int].id) == k by {
                assert(old_self.index@.contains_key(k));
                if self.index@[k] == i {
                    lemma_ident(e.id, old_self.slots@[i as int].id);
                }
            }
            assert forall|j: int| 0 <= j < self.slots@.len() implies #[trigger] self.index@.contains_key(
                ident(self.slots@[j].id),
            ) && self.index@[ident(self.slots@[j].id)] == j by {
                assert(old_self.index@.contains_key(ident(old_self.slots@[j].id)));
            }
            assert forall|j: int| 0 <= j < self.slots@.len() implies #[trigger] self.slot_linked(j) by {
                assert(old_self.slot_linked(j));
                if j != i {
                    if let Some(p) = old_self.slots@[j].parent {
                        assert(p != i);
                    }
                }
            }
            assert forall|j: int|
                0 <= j < self.slots@.len() && #[trigger] self.slots@[j].closed implies self.slots@[j].stamp@
                < self.clock@ by {
                if j != i {
                    assert(old_self.slots@[j].closed);
                }
            }
        }
        Some(i)
    }

    /// Records that the search read tile `t` at position `pos`.
    fn see_tile(&mut self, pos: Ghost<(HierarchyLevel, i32, i32)>, t: Ghost<RoutingTile>)
        requires
            old(self).wf(),
        ensures
            final(self).wf(),
            final(self).seen@ == old(self).seen@.insert((pos@, t@)),
            final(self).start == old(self).start,
            final(self).levels == old(self).levels,
            final(self).slots@ == old(self).slots@,
            final(self).open@ == old(self).open@,
            final(self).index@ == old(self).index@,
    {
        let ghost old_self = *self;
        self.seen = Ghost(self.seen@.insert((pos@, t@)));
        proof {
            assert forall|i: int| 0 <= i < self.slots@.len() implies #[trigger] self.slot_linked(i) by {
                assert(old_self.slot_linked(i));
                if let Some(p) = self.slots@[i].parent {
                    lemma_search_step_grows(
                        old_self.seen@,
                        self.seen@,
                        self.slots@[p as int].id,
                        self.slots@[i].via@,
                        self.levels,
                    );
                }
            }
        }
    }

    /// Parent links lead to closed slots closed earlier.
    spec fn parents_ok(&self) -> bool {
        forall|c: int|
            0 <= c < self.slots@.len() ==> match #[trigger] self.slots@[c].parent {
                Some(p) => (p as int) < self.slots@.len() && self.slots@[p as int].closed && (
                self.slots@[c].closed ==> self.slots@[p as int].stamp@ < self.slots@[c].stamp@),
                None => c == 0,
            }
    }

    proof fn lemma_parents_ok(&self)
        requires
            self.wf(),
        ensures
            self.parents_ok(),
    {
        assert forall|c: int| 0 <= c < self.slots@.len() implies match #[trigger] self.slots@[c].parent {
            Some(p) => (p as int) < self.slots@.len() && self.slots@[p as int].closed && (
            self.slots@[c].closed ==> self.slots@[p as int].stamp@ < self.slots@[c].stamp@),
            None => c == 0,
        } by {
            assert(self.slot_linked(c));
        }
    }

    /// The slots from `s` back to the start along parent links.
    fn chain_to_start(&self, s: usize) -> (r: (Vec<GlobalNodeId>, Ghost<Seq<usize>>))
        requires
            self.parents_ok(),
            (s as int) < self.slots@.len(),
            self.slots@[s as int].closed,
        ensures
            r.1@.len() == r.0@.len(),
            r.1@.len() >= 1,
            r.1@[0] == s,
            self.slots@[r.1@.last() as int].parent is None,
            forall|k: int|
                0 <= k < r.1@.len() ==> (#[trigger] r.1@[k] as int) < self.slots@.len() && r.0@[k]
                    == self.slots@[r.1@[k] as int].id,
            forall|k: int|
                0 <= k < r.1@.len() - 1 ==> self.slots@[#[trigger] r.1@[k] as int].parent == Some(
                    r.1@[k + 1],
                ),
    {
        let mut rev: Vec<GlobalNodeId> = Vec::new();
        rev.push(self.slots[s].id);
        let mut cur: usize = s;
        let ghost mut idxs: Seq<usize> = seq![s];
        loop
            invariant
                self.parents_ok(),
                (cur as int) < self.slots@.len(),
                self.slots@[cur as int].closed,
                idxs.len() == rev@.len(),
                idxs.len() >= 1,
                idxs[0] == s,
                idxs.last() == cur,
                forall|k: int|
                    0 <= k < idxs.len() ==> (#[trigger] idxs[k] as int) < self.slots@.len() && rev@[k]
                        == self.slots@[idxs[k] as int].id,
                forall|k: int|
                    0 <= k < idxs.len() - 1 ==> self.slots@[#[trigger] idxs[k] as int].parent == Some(
                        idxs[k + 1],
                    ),
            ensures
                self.slots@[cur as int].parent is None,
                idxs.len() == rev@.len(),
                idxs.len() >= 1,
                idxs[0] == s,
                idxs.last() == cur,
                forall|k: int|
                    0 <= k < idxs.len() ==> (#[trigger] idxs[k] as int) < self.slots@.len() && rev@[k]
                        == self.slots@[idxs[k] as int].id,
                forall|k: int|
                    0 <= k < idxs.len() - 1 ==> self.slots@[#[trigger] idxs[k] as int].parent == Some(
                        idxs[k + 1],
                    ),
            decreases self.slots@[cur as int].stamp@,
        {
            match self.slots[cur].parent {
                None => {
                    break;
                },
                Some(p) => {
                    proof {
                        assert(match self.slots@[cur as int].parent {
                            Some(p) => (p as int) < self.slots@.len() && self.slots@[p as int].closed
                                && (self.slots@[cur as int].closed ==> self.slots@[p as int].stamp@
                                < self.slots@[cur as int].stamp@),
                            None => cur == 0,
                        });
                    }
                    rev.push(self.slots[p].id);
                    proof {
                        idxs = idxs.push(p);
                    }
                    cur = p;
                },
            }
        }
        (rev, Ghost(idxs))
    }

    /// Consecutive nodes of a reversed parent chain are steps of the search
    /// graph.
    proof fn lemma_path_steps(&self, idxs: Seq<usize>, out: Seq<GlobalNodeId>)
        requires
            forall|c: int| 0 <= c < self.slots@.len() ==> #[trigger] self.slot_linked(c),
            idxs.len() == out.len(),
            out.len() >= 1,
            forall|k: int| 0 <= k < idxs.len() ==> (#[trigger] idxs[k] as int) < self.slots@.len(),
            forall|k: int|
                0 <= k < out.len() ==> #[trigger] out[k] == self.slots@[idxs[out.len() - 1
                    - k] as int].id,
            forall|k: int|
                0 <= k < idxs.len() - 1 ==> self.slots@[#[trigger] idxs[k] as int].parent == Some(
                    idxs[k + 1],
                ),
        ensures
            forall|i: int| 1 <= i < out.len() ==> step_to(self.seen@, out[i - 1], #[trigger] out[i], self.levels),
    {
        let n = out.len();
        assert forall|i: int| 1 <= i < n implies step_to(self.seen@, out[i - 1], #[trigger] out[i], self.levels) by {
            let c = idxs[n - 1 - i];
            assert(0 <= n - 1 - i < idxs.len() - 1);
            assert(self.slots@[c as int].parent == Some(idxs[n - i]));
            assert(self.slot_linked(c as int));
            assert(out[i - 1] == self.slots@[idxs[n - i] as int].id);
            let b = self.slots@[c as int].via@;
            assert(same_node(b, out[i]));
            assert(search_step(self.seen@, out[i - 1], b, self.levels));
        }
    }

    /// The path from the start to closed slot `s`, following parent links.
    fn path_to(&self, s: usize) -> (r: Vec<GlobalNodeId>)
        requires
            self.wf(),
            (s as int) < self.slots@.len(),
            self.slots@[s as int].closed,
        ensures
            r@.len() >= 1,
            r@[0] == self.start,
            r@.last() == self.slots@[s as int].id,
            forall|i: int| 1 <= i < r@.len() ==> step_to(self.seen@, r@[i - 1], #[trigger] r@[i], self.levels),
    {
        proof {
            self.lemma_parents_ok();
        }
        let (rev, idxs) = self.chain_to_start(s);
        let ghost idxs = idxs@;
        proof {
            let c = idxs.last() as int;
            assert(match self.slots@[c].parent {
                Some(p) => (p as int) < self.slots@.len(),
                None => c == 0,
            });
        }
        let n = rev.len();
        let mut out: Vec<GlobalNodeId> = Vec::new();
        let mut i: usize = 0;
        while i < n
            invariant
                n == rev@.len(),
                i <= n,
                out@.len() == i,
                forall|k: int| 0 <= k < i ==> out@[k] == rev@[n - 1 - k],
            decreases n - i,
        {
            out.push(rev[n - 1 - i]);
            i = i + 1;
        }
        proof {
            self.lemma_path_steps(idxs, out@);
        }
        out
    }
}

// ---------------------------------------------------------------------------
// Neighbours of a node inside one tile
// ---------------------------------------------------------------------------

/// A neighbour found while expanding a node.
#[derive(Clone, Copy)]
struct Candidate {
    /// The neighbour.
    id: GlobalNodeId,
    /// Weight of the step (unused for level transitions, which cost nothing).
    weight: u32,
    /// The point its heuristic is computed at.
    point: (i32, i32),
    /// Whether the step changes level at the same location.
    transition: bool,
}

/// Appends `src` to `dst`.
fn append_candidates(dst: &mut Vec<Candidate>, src: &Vec<Candidate>)
    ensures
        final(dst)@ == old(dst)@ + src@,
{
    let mut k: usize = 0;
    while k < src.len()
        invariant
            k <= src@.len(),
            dst@ == old(dst)@ + src@.subrange(0, k as int),
        decreases src@.len() - k,
    {
        dst.push(src[k]);
        k = k + 1;
        assert(dst@ =~= old(dst)@ + src@.subrange(0, k as int));
    }
    assert(src@.subrange(0, k as int) =~= src@);
}

/// The first node of `t` at the given coordinates.
fn find_node_at(t: &RoutingTile, lat: i32, lon: i32) -> (r: Option<u32>)
    ensures
        match r {
            Some(i) => node_at(*t, i as int, lat, lon) && forall|j: int|
                0 <= j < i ==> !node_at(*t, j, lat, lon),
            None => forall|j: int|
                0 <= j < t.nodes@.len() && j <= u32::MAX ==> !node_at(*t, j, lat, lon),
        },
{
    let mut i: usize = 0;
    while i < t.nodes.len() && i <= 0xFFFF_FFFF
        invariant
            i <= t.nodes@.len(),
            forall|j: int| 0 <= j < i ==> !node_at(*t, j, lat, lon),
        decreases t.nodes@.len() - i,
    {
        if t.nodes[i].lat == lat && t.nodes[i].lon == lon {
            return Some(i as u32);
        }
        i = i + 1;
    }
    None
}

/// The neighbour found along edge `e` of a node of tile `t` held at `pos`.
spec fn edge_cand(t: RoutingTile, pos: (HierarchyLevel, i32, i32), e: RoutingEdge) -> Candidate {
    Candidate {
        id: tile_node_id(t, pos, e.target),
        weight: travel_weight(e.distance_cm, e.speed_kmh),
        point: (t.nodes@[e.target as int].lat, t.nodes@[e.target as int].lon),
        transition: false,
    }
}

/// The neighbours along the edges `es` of a node of tile `t` held at
/// `pos`: one per edge whose target is a node of the tile, in edge order.
spec fn edge_cands(t: RoutingTile, pos: (HierarchyLevel, i32, i32), es: Seq<RoutingEdge>) -> Seq<
    Candidate,
>
    decreases es.len(),
{
    if es.len() == 0 {
        Seq::empty()
    } else {
        let rest = edge_cands(t, pos, es.drop_last());
        if es.last().target < t.nodes@.len() {
            rest.push(edge_cand(t, pos, es.last()))
        } else {
            rest
        }
    }
}

/// The neighbours of node `u` of tile `t` along its edges (none when its
/// edge block starts past the edge array).
spec fn node_cands(t: RoutingTile, pos: (HierarchyLevel, i32, i32), u: u32) -> Seq<Candidate> {
    if (u as int) < t.nodes@.len() && t.nodes@[u as int].first_edge > t.edges@.len() {
        Seq::empty()
    } else {
        edge_cands(t, pos, t.out_edges(u as int))
    }
}

/// The first node of `t` at the given coordinates.
spec fn first_node_at(t: RoutingTile, lat: i32, lon: i32) -> Option<u32> {
    if exists|i: u32| node_at(t, i as int, lat, lon) {
        Some(
            choose|i: u32|
                node_at(t, i as int, lat, lon) && forall|j: int| 0 <= j < i ==> !node_at(t, j, lat, lon),
        )
    } else {
        None
    }
}

/// `first_node_at` is what `find_node_at` returns.
proof fn lemma_first_node_at(t: RoutingTile, lat: i32, lon: i32, r: Option<u32>)
    requires
        match r {
            Some(i) => node_at(t, i as int, lat, lon) && forall|j: int|
                0 <= j < i ==> !node_at(t, j, lat, lon),
            None => forall|j: int|
                0 <= j < t.nodes@.len() && j <= u32::MAX ==> !node_at(t, j, lat, lon),
        },
    ensures
        first_node_at(t, lat, lon) == r,
{
    match r {
        Some(i) => {
            assert(node_at(t, i as int, lat, lon));
            let c = choose|c: u32|
                node_at(t, c as int, lat, lon) && forall|j: int| 0 <= j < c ==> !node_at(t, j, lat, lon);
            if c < i {
                assert(!node_at(t, c as int, lat, lon));
            }
            if i < c {
                assert(!node_at(t, i as int, lat, lon));
            }
        },
        None => {
            assert forall|c: u32| !node_at(t, c as int, lat, lon) by {
                if node_at(t, c as int, lat, lon) {
                    assert(0 <= c < t.nodes@.len());
                }
            }
        },
    }
}

/// The neighbour along cross-tile edge `ce` to tile `t2` held at `pos`;
/// its heuristic point falls back on the tile coordinates for a zero
/// coordinate.
spec fn cross_cand(t2: RoutingTile, pos: (HierarchyLevel, i32, i32), ce: CrossTileEdge) -> Candidate {
    let n = t2.nodes@[ce.target_node as int];
    Candidate {
        id: tile_node_id(t2, pos, ce.target_node),
        weight: travel_weight(ce.distance_cm, ce.speed_kmh),
        point: (if n.lat != 0 { n.lat } else { ce.target_tile_x }, if n.lon != 0 { n.lon } else { ce.target_tile_y }),
        transition: false,
    }
}

/// The node `i` of the tile at `pos` on another level, at `cur`'s location.
spec fn level_cand(pos: (HierarchyLevel, i32, i32), i: u32, cur: GlobalNodeId) -> Candidate {
    Candidate {
        id: GlobalNodeId {
            level: pos.0,
            tile_x: pos.1,
            tile_y: pos.2,
            node_idx: i,
            lat_micro: cur.lat_micro,
            lon_micro: cur.lon_micro,
        },
        weight: 0,
        point: (cur.lat_micro, cur.lon_micro),
        transition: true,
    }
}

/// Appends the neighbours of node `u` of tile `t` (held at `pos`) along
/// `u`'s edges whose target is a node of the tile, in edge order. A node
/// whose edge block starts past the edge array has no such neighbours.
fn push_edge_neighbours(
    t: &RoutingTile,
    pos: (HierarchyLevel, i32, i32),
    u: u32,
    out: &mut Vec<Candidate>,
)
    ensures
        final(out)@ == old(out)@ + node_cands(*t, pos, u),
        final(out)@.len() >= old(out)@.len(),
        forall|k: int| 0 <= k < old(out)@.len() ==> final(out)@[k] == old(out)@[k],
        forall|k: int|
            old(out)@.len() <= k < final(out)@.len() ==> edge_step(*t, pos, u as int, #[trigger] final(out)@[k].id)
                && !final(out)@[k].transition,
{
    if (u as usize) < t.nodes.len() && t.nodes[u as usize].first_edge as usize > t.edges.len() {
        return;
    }
    let edges = t.edges_for_node(u);
    let ghost start_len = out@.len();
    let mut j: usize = 0;
    while j < edges.len()
        invariant
            edges@ == t.out_edges(u as int),
            j <= edges@.len(),
            out@ == old(out)@ + edge_cands(*t, pos, edges@.subrange(0, j as int)),
            out@.len() >= start_len,
            forall|k: int| 0 <= k < old(out)@.len() ==> out@[k] == old(out)@[k],
            start_len == old(out)@.len(),
            forall|k: int|
                start_len <= k < out@.len() ==> edge_step(*t, pos, u as int, #[trigger] out@[k].id)
                    && !out@[k].transition,
        decreases edges@.len() - j,
    {
        let e = edges[j];
        if let Some(n) = t.node(e.target) {
            let id = GlobalNodeId::with_coords(pos.0, pos.1, pos.2, e.target, n.lat, n.lon);
            proof {
                assert(t.out_edges(u as int)[j as int].target < t.nodes@.len());
                assert(id == tile_node_id(*t, pos, t.out_edges(u as int)[j as int].target));
                assert(edge_step(*t, pos, u as int, id));
            }
            let w = e.weight();
            out.push(Candidate { id, weight: w, point: (n.lat, n.lon), transition: false });
        }
        proof {
            assert(edges@.subrange(0, j + 1).drop_last() =~= edges@.subrange(0, j as int));
        }
        j = j + 1;
    }
    proof {
        assert(edges@.subrange(0, j as int) =~= edges@);
    }
}

// ---------------------------------------------------------------------------
// The search state machine
// ---------------------------------------------------------------------------

/// Result of a hierarchical search.
#[derive(Debug, Clone)]
pub struct HierarchicalRoute {
    /// Path as global node IDs.
    pub path: Vec<GlobalNodeId>,
    /// Number of open-set entries taken out during the search.
    pub nodes_explored: usize,
    /// Levels used by the search.
    pub levels_used: Vec<HierarchyLevel>,
}

/// What the search needs to go on, or how it ended.
#[derive(Debug, Clone)]
pub enum SearchStep {
    /// Call `advance` again.
    Continue,
    /// The tile at this position is not in the cache: store it in the
    /// cache if it exists, then call `advance` again (a tile that is still
    /// missing is taken as absent).
    NeedTile(HierarchyLevel, i32, i32),
    /// Give, with `set_node_tiles`, the tile holding the location
    /// (latitude, longitude in microdegrees) at each level (highway,
    /// arterial, local).
    NeedNodeTiles(i32, i32),
    /// Give, with `set_heuristics`, the heuristic value of each point of
    /// `heuristic_points` toward `target`.
    NeedHeuristics,
    /// The search found a route.
    Found(HierarchicalRoute),
    /// The search ended without a route.
    NotFound,
}

#[derive(Clone, Copy, PartialEq, Eq, Structural)]
enum Phase {
    EndTile,
    StartTile,
    StartHeuristic,
    Pop,
    NodeTiles,
    OwnTile,
    CanonTile,
    CrossTiles,
    LevelTiles,
    Heuristics,
    Finished,
}

/// Outcome of reading a tile from the cache.
enum Fetch<'a> {
    Tile(&'a RoutingTile),
    Need,
    Absent,
}

/// A* search from `start` to `end`, on one level or across levels.
///
/// On one level the goal is the node `end` (by location); across levels it
/// is any node at `end`'s coordinates, and a node may switch at no cost to
/// the node at the same location on a neighbouring level.
pub struct HierarchicalSearch {
    core: SearchCore,
    end: GlobalNodeId,
    level: HierarchyLevel,
    max_nodes: usize,
    target: (i32, i32),
    nodes_explored: usize,
    phase: Phase,
    current: usize,
    current_g: u32,
    node_tiles: Vec<(i32, i32)>,
    cands: Vec<Candidate>,
    canon: Vec<Candidate>,
    cross: Vec<CrossTileEdge>,
    cross_i: usize,
    own_tile: Ghost<RoutingTile>,
    trans: Vec<HierarchyLevel>,
    trans_i: usize,
    asked: Vec<(HierarchyLevel, i32, i32)>,
    points: Vec<(i32, i32)>,
    heuristics: Vec<u32>,
    levels_seen: Vec<bool>,
}

impl HierarchicalSearch {
    /// The start node.
    pub closed spec fn start_id(&self) -> GlobalNodeId {
        self.core.start
    }

    /// The end node.
    pub closed spec fn end_id(&self) -> GlobalNodeId {
        self.end
    }

    /// Whether the search may change levels.
    pub closed spec fn across_levels(&self) -> bool {
        self.core.levels
    }

    /// The tiles the search has read from the cache so far, with their
    /// positions.
    pub closed spec fn seen_tiles(&self) -> Set<((HierarchyLevel, i32, i32), RoutingTile)> {
        self.core.seen@
    }

    /// The limit on open-set entries taken out.
    pub closed spec fn node_limit(&self) -> usize {
        self.max_nodes
    }

    /// The current node being expanded (valid in the expansion phases).
    spec fn cur(&self) -> GlobalNodeId {
        self.core.slots@[self.current as int].id
    }

    spec fn expanding(&self) -> bool {
        ||| self.phase == Phase::NodeTiles
        ||| self.phase == Phase::OwnTile
        ||| self.phase == Phase::CanonTile
        ||| self.phase == Phase::CrossTiles
        ||| self.phase == Phase::LevelTiles
        ||| self.phase == Phase::Heuristics
    }

    spec fn cands_ok(&self, cs: Seq<Candidate>) -> bool {
        forall|k: int|
            0 <= k < cs.len() ==> search_step(self.core.seen@, self.cur(), #[trigger] cs[k].id, self.core.levels)
    }

    spec fn inv(&self) -> bool {
        &&& self.core.wf()
        &&& self.levels_seen@.len() == 3
        &&& self.phase != Phase::Finished ==> self.nodes_explored == 0 || self.nodes_explored
            < self.max_nodes
        &&& self.phase == Phase::StartHeuristic ==> self.points@.len() == 1
        &&& self.expanding() ==> {
            &&& (self.current as int) < self.core.slots@.len()
            &&& self.core.slots@[self.current as int].closed
            &&& self.cands_ok(self.cands@)
            &&& self.cands_ok(self.canon@)
        }
        &&& (self.phase == Phase::OwnTile || self.phase == Phase::CanonTile || self.phase
            == Phase::CrossTiles || self.phase == Phase::LevelTiles || self.phase
            == Phase::Heuristics) ==> self.node_tiles@.len() == 3
        &&& self.phase == Phase::CanonTile || self.phase == Phase::CrossTiles ==> {
            &&& self.core.seen@.contains(
                (
                    (self.cur().level, self.cur().tile_x, self.cur().tile_y),
                    self.own_tile@,
                ),
            )
            &&& self.cross@ == cross_edges_from(self.own_tile@.cross_tile_edges@, self.cur().node_idx)
            &&& self.cross_i <= self.cross@.len()
        }
        &&& self.phase == Phase::LevelTiles ==> {
            &&& self.core.levels
            &&& self.trans@ == transition_levels(self.cur().level)
            &&& self.trans_i <= self.trans@.len()
        }
        &&& self.phase == Phase::Heuristics ==> self.points@.len() == self.cands@.len()
    }
}

/// The lower of two costs, where `None` is an unknown (infinite) cost.
pub open spec fn lower(a: Option<u32>, b: Option<u32>) -> Option<u32> {
    match (a, b) {
        (Some(x), Some(y)) => Some(if x <= y { x } else { y }),
        (Some(x), None) => Some(x),
        (None, _) => b,
    }
}

/// The least cost among the first `k` offers `(neighbour, cost, heuristic)`
/// for the node at `id`'s location.
pub open spec fn best_offer(offers: Seq<(GlobalNodeId, u32, u32)>, id: GlobalNodeId, k: int) -> Option<
    u32,
>
    decreases k,
{
    if k <= 0 {
        None
    } else {
        let b = best_offer(offers, id, k - 1);
        let o = offers[k - 1];
        if same_node(o.0, id) && (b is None || o.1 < b.unwrap()) {
            Some(o.1)
        } else {
            b
        }
    }
}

/// The cost of the node at `id`'s location after the first `k` offers of
/// search `s` are relaxed: unchanged when it was expanded, else the lower
/// of its known cost and the best offer.
pub open spec fn relaxed_cost(s: HierarchicalSearch, id: GlobalNodeId, k: int) -> Option<u32> {
    if s.is_expanded(id) {
        s.known_cost(id)
    } else {
        lower(s.known_cost(id), best_offer(s.offers(), id, k))
    }
}

/// Offer `j` of search `s` lowers the cost of its node.
pub open spec fn offer_lowers(s: HierarchicalSearch, j: int) -> bool {
    let o = s.offers()[j];
    !s.is_expanded(o.0) && (relaxed_cost(s, o.0, j) is None || o.1 < relaxed_cost(s, o.0, j).unwrap())
}

/// The open-set entries `(node, cost, priority)` that relaxing the first
/// `k` offers of `s` adds: one per offer that lowers a cost, in order, with
/// priority cost plus heuristic (saturating).
pub open spec fn relax_pushes(s: HierarchicalSearch, k: int) -> Seq<(GlobalNodeId, u32, u32)>
    decreases k,
{
    if k <= 0 {
        Seq::empty()
    } else {
        let o = s.offers()[k - 1];
        relax_pushes(s, k - 1) + if offer_lowers(s, k - 1) {
            seq![(o.0, o.1, o.1.saturating_add(o.2))]
        } else {
            Seq::empty()
        }
    }
}

/// Offers for nodes at the same location are the same offers.
proof fn lemma_best_offer_same(offers: Seq<(GlobalNodeId, u32, u32)>, a: GlobalNodeId, b: GlobalNodeId, k: int)
    requires
        same_node(a, b),
    ensures
        best_offer(offers, a, k) == best_offer(offers, b, k),
    decreases k,
{
    if k > 0 {
        lemma_best_offer_same(offers, a, b, k - 1);
    }
}

/// The search core `c` is `s`'s core after relaxing its first `k` offers.
spec fn relaxed_upto(s: HierarchicalSearch, c: SearchCore, k: int) -> bool {
    &&& forall|key: u128|
        #[trigger] s.core.index@.contains_key(key) ==> c.index@.contains_key(key) && c.index@[key]
            == s.core.index@[key]
    &&& forall|id: GlobalNodeId| #[trigger] c.known_in(id) == relaxed_cost(s, id, k)
    &&& forall|id: GlobalNodeId| #[trigger] c.expanded_in(id) == s.is_expanded(id)
    &&& forall|id: GlobalNodeId|
        #[trigger] c.parent_in(id) == if relaxed_cost(s, id, k) == s.known_cost(id) {
            s.parent_of(id)
        } else {
            Some(s.cur())
        }
    &&& c.open_view() == s.open_entries() + relax_pushes(s, k)
}

/// Relaxing offer `k` of `s` takes the core from the state after `k`
/// offers to the state after `k + 1`.
proof fn lemma_relax_step(s: HierarchicalSearch, c: SearchCore, c2: SearchCore, k: int)
    requires
        s.inv(),
        s.relaxing(),
        0 <= k < s.cands@.len(),
        c.wf(),
        s.core.grows_to(&c),
        relaxed_upto(s, c, k),
        c.relax_post(
            &c2,
            s.current,
            s.cands@[k].id,
            s.reach_cost(s.cands@[k]),
            s.heuristics@[k],
        ),
    ensures
        relaxed_upto(s, c2, k + 1),
{
    let cand = s.cands@[k].id;
    let tent = s.reach_cost(s.cands@[k]);
    let o = s.offers()[k];
    assert(o == (cand, tent, s.heuristics@[k]));
    let kc = ident(cand);
    lemma_ident(cand, cand);
    // the offer lowers the cost exactly when relaxing improves the core
    assert(c.known_in(cand) == relaxed_cost(s, cand, k));
    assert(c.expanded_in(cand) == s.is_expanded(cand));
    assert(c.improves(cand, tent) == offer_lowers(s, k));
    let cur_slot = s.current as int;
    assert(s.core.slots@[cur_slot].closed);
    assert(c.slots@[cur_slot] == s.core.slots@[cur_slot]);
    assert forall|key: u128| #[trigger] s.core.index@.contains_key(key) implies c2.index@.contains_key(key)
        && c2.index@[key] == s.core.index@[key] by {
        assert(c.index@.contains_key(key));
    }
    assert forall|id: GlobalNodeId|
        #![trigger c2.known_in(id)]
        #![trigger c2.expanded_in(id)]
        #![trigger c2.parent_in(id)]
        c2.known_in(id) == relaxed_cost(s, id, k + 1) && c2.expanded_in(id)
            == s.is_expanded(id) && c2.parent_in(id) == (if relaxed_cost(s, id, k + 1)
            == s.known_cost(id) {
            s.parent_of(id)
        } else {
            Some(s.cur())
        }) by {
        lemma_ident(id, cand);
        assert(c.known_in(id) == relaxed_cost(s, id, k));
        assert(c.expanded_in(id) == s.is_expanded(id));
        assert(c.parent_in(id) == (if relaxed_cost(s, id, k) == s.known_cost(id) {
            s.parent_of(id)
        } else {
            Some(s.cur())
        }));
        let key = ident(id);
        if same_node(id, cand) {
            lemma_best_offer_same(s.offers(), id, cand, k);
            lemma_best_offer_same(s.offers(), id, cand, k + 1);
            if c.improves(cand, tent) {
                assert(c2.index@[key] == c2.index@[kc]);
            } else {
                if c.index@.contains_key(key) {
                    let i = c.index@[key] as int;
                    if let Some(p) = c.slots@[i].parent {
                        assert(c.slot_linked(i));
                    }
                }
            }
        } else {
            assert(!same_node(o.0, id));
            assert(best_offer(s.offers(), id, k + 1) == best_offer(s.offers(), id, k));
            if c2.index@.contains_key(key) {
                assert(c.index@.contains_key(key));
                let i = c.index@[key] as int;
                assert(c2.index@[key] == c.index@[key]);
                if c.improves(cand, tent) {
                    assert(ident(c.slots@[i].id) == key);
                    assert(i != c2.index@[kc]);
                    assert(c2.slots@[i] == c.slots@[i]);
                    if let Some(p) = c.slots@[i].parent {
                        assert(c.slot_linked(i));
                        assert(c.slots@[p as int].closed);
                        assert(p != c2.index@[kc]);
                        assert(c2.slots@[p as int] == c.slots@[p as int]);
                    }
                }
            } else {
                assert(!c.index@.contains_key(key));
            }
        }
    }
    assert(relax_pushes(s, k + 1) == relax_pushes(s, k) + if offer_lowers(s, k) {
        seq![(o.0, o.1, o.1.saturating_add(o.2))]
    } else {
        Seq::empty()
    });
    if c.improves(cand, tent) {
        assert(c2.open_view() =~= c.open_view().push((cand, tent, tent.saturating_add(o.2))));
    } else {
        assert(c2.open_view() =~= c.open_view());
    }
    assert(c2.open_view() =~= s.open_entries() + relax_pushes(s, k + 1));
}

/// The cache holds the tile of `id`'s position, and `id`'s node index is
/// past its nodes.
pub open spec fn node_missing(cache: TileCache, id: GlobalNodeId) -> bool {
    match cache.tile_at(id.level, id.tile_x, id.tile_y) {
        Some(t) => id.node_idx >= t.nodes@.len(),
        None => false,
    }
}

/// The tile of `id`'s position is missing from the cache after it was
/// asked for.
pub open spec fn tile_absent(s: HierarchicalSearch, cache: TileCache, id: GlobalNodeId) -> bool {
    cache.tile_at(id.level, id.tile_x, id.tile_y) is None && s.asked_before(
        (id.level, id.tile_x, id.tile_y),
    )
}

/// When a search ends without a route: taking the next entry, exactly
/// when the open set is empty or the entry would reach the limit on
/// entries taken out; reading the end or start tile, exactly when that
/// tile stays missing after it was asked for, or does not hold the node.
pub proof fn lemma_search_ends(s: HierarchicalSearch, next: HierarchicalSearch, cache: TileCache, r: SearchStep)
    requires
        s.wf(),
        s.step_taken(&next, &cache, r),
    ensures
        s.taking_next() ==> (r is NotFound <==> (s.open_entries().len() == 0 || s.explored() + 1
            >= s.node_limit())),
        s.reading_end_tile() ==> (r is NotFound <==> (tile_absent(s, cache, s.end_id())
            || node_missing(cache, s.end_id()))),
        s.reading_start_tile() ==> (r is NotFound <==> (tile_absent(s, cache, s.start_id())
            || node_missing(cache, s.start_id()))),
{
    if s.taking_next() && !(s.core.open@.len() == 0 || s.nodes_explored + 1 >= s.max_nodes) {
        let j = choose|j: int|
            #![trigger s.core.open@[j]]
            0 <= j < s.core.open@.len() && (forall|k: int|
                0 <= k < s.core.open@.len() ==> s.core.open@[j].f <= #[trigger] s.core.open@[k].f)
                && next.core.open@ == s.core.open@.remove(j) && s.popped(&next, s.core.open@[j], r);
    }
}

/// The relaxation law: when a search that holds its neighbours'
/// heuristics takes a step, it goes on (`Continue`), and
/// - a node that was expanded keeps its cost and parent;
/// - any other node's cost becomes the lower of its known cost and the
///   least cost offered for it by the expanded node's neighbours (a node
///   neither known nor offered stays unknown);
/// - its parent becomes the expanded node exactly when that lowered its
///   cost, and stays otherwise;
/// - the open set gains, in order, one entry `(node, cost, cost + heuristic)`
///   for each offer that lowers a cost at its turn.
pub proof fn lemma_relaxation(s: HierarchicalSearch, next: HierarchicalSearch, cache: TileCache, r: SearchStep)
    requires
        s.wf(),
        s.relaxing(),
        s.step_taken(&next, &cache, r),
    ensures
        r is Continue,
        forall|id: GlobalNodeId|
            #[trigger] next.known_cost(id) == relaxed_cost(s, id, s.offers().len() as int),
        forall|id: GlobalNodeId| #[trigger] next.is_expanded(id) == s.is_expanded(id),
        forall|id: GlobalNodeId|
            #[trigger] next.parent_of(id) == if relaxed_cost(s, id, s.offers().len() as int)
                == s.known_cost(id) {
                s.parent_of(id)
            } else {
                Some(s.expanding_node())
            },
        next.open_entries() == s.open_entries() + relax_pushes(s, s.offers().len() as int),
{
    assert(s.offers().len() == s.cands@.len());
    assert(relaxed_upto(s, next.core, s.cands@.len() as int));
}

/// The route a search found is a path of the search graph of the tiles
/// it read: from `start`, along steps (each ending at a node at the same
/// location as the next path node), to `end` (on one level, the node at
/// `end`'s location; across levels, any node at `end`'s coordinates).
pub open spec fn route_ok(
    start: GlobalNodeId,
    end: GlobalNodeId,
    levels: bool,
    seen: Set<((HierarchyLevel, i32, i32), RoutingTile)>,
    route: HierarchicalRoute,
) -> bool {
    let p = route.path@;
    &&& p.len() >= 1
    &&& p[0] == start
    &&& if levels {
        p.last().lat_micro == end.lat_micro && p.last().lon_micro == end.lon_micro
    } else {
        same_node(p.last(), end)
    }
    &&& forall|i: int| 1 <= i < p.len() ==> step_to(seen, p[i - 1], #[trigger] p[i], levels)
    &&& levels ==> route.levels_used@.contains(p.last().level)
}

/// Whether a tile position is in the list.
fn was_asked(asked: &Vec<(HierarchyLevel, i32, i32)>, pos: (HierarchyLevel, i32, i32)) -> (r: bool)
    ensures
        r == asked@.contains(pos),
{
    let mut i: usize = 0;
    while i < asked.len()
        invariant
            i <= asked@.len(),
            forall|j: int| 0 <= j < i ==> asked@[j] != pos,
        decreases asked@.len() - i,
    {
        if asked[i].0 == pos.0 && asked[i].1 == pos.1 && asked[i].2 == pos.2 {
            proof {
                assert(asked@[i as int] == pos);
            }
            return true;
        }
        i = i + 1;
    }
    false
}

/// Tile reads: the tile in the cache, or a request for it, or its absence
/// when it was requested before in this step and is still missing.
fn fetch<'a>(
    core: &mut SearchCore,
    asked: &mut Vec<(HierarchyLevel, i32, i32)>,
    cache: &'a TileCache,
    pos: (HierarchyLevel, i32, i32),
) -> (r: Fetch<'a>)
    requires
        old(core).wf(),
    ensures
        final(core).wf(),
        final(core).start == old(core).start,
        final(core).levels == old(core).levels,
        final(core).slots@ == old(core).slots@,
        final(core).open@ == old(core).open@,
        final(core).index@ == old(core).index@,
        match r {
            Fetch::Tile(t) => cache.tile_at(pos.0, pos.1, pos.2) == Some(*t) && final(core).seen@
                == old(core).seen@.insert((pos, *t)),
            _ => final(core).seen@ == old(core).seen@,
        },
        cache.tile_at(pos.0, pos.1, pos.2) is Some ==> r is Tile && final(asked)@ == old(asked)@,
        cache.tile_at(pos.0, pos.1, pos.2) is None && old(asked)@.contains(pos) ==> r is Absent
            && final(asked)@ == old(asked)@,
        cache.tile_at(pos.0, pos.1, pos.2) is None && !old(asked)@.contains(pos) ==> r is Need
            && final(asked)@ == old(asked)@.push(pos),
{
    match cache.cached(pos.0, pos.1, pos.2) {
        Some(t) => {
            core.see_tile(Ghost(pos), Ghost(*t));
            Fetch::Tile(t)
        },
        None => {
            if was_asked(asked, pos) {
                Fetch::Absent
            } else {
                asked.push(pos);
                Fetch::Need
            }
        },
    }
}

/// The levels whose flag is set, in level order.
fn flagged_levels(flags: &Vec<bool>) -> (r: Vec<HierarchyLevel>)
    requires
        flags@.len() == 3,
    ensures
        forall|l: HierarchyLevel| r@.contains(l) <==> flags@[level_index(l)],
{
    let mut r: Vec<HierarchyLevel> = Vec::new();
    if flags[0] {
        r.push(HierarchyLevel::Highway);
    }
    if flags[1] {
        r.push(HierarchyLevel::Arterial);
    }
    if flags[2] {
        r.push(HierarchyLevel::Local);
    }
    proof {
        assert forall|l: HierarchyLevel| r@.contains(l) <==> flags@[level_index(l)] by {
            if flags@[level_index(l)] {
                match l {
                    HierarchyLevel::Highway => assert(r@[0] == l),
                    HierarchyLevel::Arterial => {
                        if flags@[0] {
                            assert(r@[1] == l);
                        } else {
                            assert(r@[0] == l);
                        }
                    },
                    HierarchyLevel::Local => {
                        assert(r@[r@.len() - 1] == l);
                    },
                }
            }
        }
    }
    r
}

proof fn lemma_cands_grow(
    seen: Set<((HierarchyLevel, i32, i32), RoutingTile)>,
    more: Set<((HierarchyLevel, i32, i32), RoutingTile)>,
    a: GlobalNodeId,
    cs: Seq<Candidate>,
    levels: bool,
)
    requires
        seen.subset_of(more),
        forall|k: int| 0 <= k < cs.len() ==> search_step(seen, a, #[trigger] cs[k].id, levels),
    ensures
        forall|k: int| 0 <= k < cs.len() ==> search_step(more, a, #[trigger] cs[k].id, levels),
{
    assert forall|k: int| 0 <= k < cs.len() implies search_step(more, a, #[trigger] cs[k].id, levels) by {
        lemma_search_step_grows(seen, more, a, cs[k].id, levels);
    }
}

impl HierarchicalSearch {
    /// The search's state is consistent (every search made by `single_level`
    /// or `multi_level` is, and stays so).
    pub closed spec fn wf(&self) -> bool {
        self.inv()
    }

    /// How one step changed the search: the same query, more tiles seen,
    /// each new one as the cache held it.
    spec fn moved(&self, next: &HierarchicalSearch, cache: &TileCache) -> bool {
        &&& next.inv()
        &&& next.core.start == self.core.start
        &&& next.end == self.end
        &&& next.core.levels == self.core.levels
        &&& next.max_nodes == self.max_nodes
        &&& next.level == self.level
        &&& self.core.seen@.subset_of(next.core.seen@)
        &&& forall|x: ((HierarchyLevel, i32, i32), RoutingTile)|
            #[trigger] next.core.seen@.contains(x) && !self.core.seen@.contains(x) ==> cache.tile_at(
                x.0.0,
                x.0.1,
                x.0.2,
            ) == Some(x.1)
    }

    /// `moved` for a step that reads no tile.
    spec fn kept(&self, next: &HierarchicalSearch) -> bool {
        &&& next.inv()
        &&& next.core.start == self.core.start
        &&& next.end == self.end
        &&& next.core.levels == self.core.levels
        &&& next.max_nodes == self.max_nodes
        &&& next.level == self.level
        &&& next.core.seen@ == self.core.seen@
    }

    spec fn found_ok(&self, r: SearchStep) -> bool {
        r matches SearchStep::Found(route) ==> route_ok(
            self.core.start,
            self.end,
            self.core.levels,
            self.core.seen@,
            route,
        ) && 1 <= route.nodes_explored < self.max_nodes && (!self.core.levels
            ==> route.levels_used@ == seq![self.level])
    }

    /// The tile at `pos` is missing from the cache and was not asked for
    /// yet in this step: the search asks for it.
    spec fn asks(&self, cache: &TileCache, pos: (HierarchyLevel, i32, i32)) -> bool {
        cache.tile_at(pos.0, pos.1, pos.2) is None && !self.asked@.contains(pos)
    }

    /// The search asks for the tile at `pos` and waits in the same phase.
    spec fn asked_for(&self, next: &HierarchicalSearch, pos: (HierarchyLevel, i32, i32), r: SearchStep) -> bool {
        &&& r == SearchStep::NeedTile(pos.0, pos.1, pos.2)
        &&& next.phase == self.phase
        &&& next.asked@ == self.asked@.push(pos)
    }

    /// The search ended without a route.
    spec fn ended(&self, next: &HierarchicalSearch, r: SearchStep) -> bool {
        r is NotFound && next.phase == Phase::Finished
    }

    /// Reading the end node's tile: its node's coordinates become the
    /// heuristic target.
    spec fn end_tile_step(&self, next: &HierarchicalSearch, cache: &TileCache, r: SearchStep) -> bool {
        let pos = (self.end.level, self.end.tile_x, self.end.tile_y);
        match cache.tile_at(pos.0, pos.1, pos.2) {
            None => if self.asked@.contains(pos) {
                self.ended(next, r)
            } else {
                self.asked_for(next, pos, r)
            },
            Some(t) => if (self.end.node_idx as int) < t.nodes@.len() {
                &&& r is Continue
                &&& next.phase == Phase::StartTile
                &&& next.target == (
                    t.nodes@[self.end.node_idx as int].lat,
                    t.nodes@[self.end.node_idx as int].lon,
                )
            } else {
                self.ended(next, r)
            },
        }
    }

    /// Reading the start node's tile: the heuristic of its node's
    /// coordinates is asked for.
    spec fn start_tile_step(&self, next: &HierarchicalSearch, cache: &TileCache, r: SearchStep) -> bool {
        let s = self.core.start;
        let pos = (s.level, s.tile_x, s.tile_y);
        match cache.tile_at(pos.0, pos.1, pos.2) {
            None => if self.asked@.contains(pos) {
                self.ended(next, r)
            } else {
                self.asked_for(next, pos, r)
            },
            Some(t) => if (s.node_idx as int) < t.nodes@.len() {
                &&& r is NeedHeuristics
                &&& next.phase == Phase::StartHeuristic
                &&& next.points@ == seq![(t.nodes@[s.node_idx as int].lat, t.nodes@[s.node_idx as int].lon)]
                &&& next.heuristics@.len() == 0
            } else {
                self.ended(next, r)
            },
        }
    }

    /// With the start's heuristic given, the start enters the open set.
    spec fn start_heuristic_step(&self, next: &HierarchicalSearch, r: SearchStep) -> bool {
        if self.heuristics@.len() == 1 {
            &&& r is Continue
            &&& next.phase == Phase::Pop
            &&& next.core.slots@ == self.core.slots@
            &&& next.core.open@ == self.core.open@.push(
                OpenEntry { id: self.core.start, g: 0, f: self.heuristics@[0] },
            )
        } else {
            r is NeedHeuristics && next.phase == self.phase
        }
    }

    /// A node at the goal: on one level the end node (by location), across
    /// levels any node at the end's coordinates.
    spec fn at_goal(&self, id: GlobalNodeId) -> bool {
        if self.core.levels {
            id.lat_micro == self.end.lat_micro && id.lon_micro == self.end.lon_micro
        } else {
            same_node(id, self.end)
        }
    }

    /// What follows taking entry `e` out of the open set: nothing when its
    /// node was closed before; the route when it is at the goal; else its
    /// expansion starts by asking for the tiles of its location.
    spec fn popped(&self, next: &HierarchicalSearch, e: OpenEntry, r: SearchStep) -> bool {
        let i = self.core.index@[ident(e.id)];
        if self.core.slots@[i as int].closed {
            r is Continue && next.phase == Phase::Pop
        } else if self.at_goal(e.id) {
            &&& r matches SearchStep::Found(route) && route.path@.last() == e.id
                && route.nodes_explored == self.nodes_explored + 1
            &&& next.phase == Phase::Finished
        } else {
            &&& r == SearchStep::NeedNodeTiles(e.id.lat_micro, e.id.lon_micro)
            &&& next.phase == Phase::NodeTiles
            &&& next.current == i
            &&& next.core.slots@[i as int].id == e.id
            &&& next.current_g == e.g
            &&& next.cands@.len() == 0
            &&& next.canon@.len() == 0
            &&& next.node_tiles@.len() == 0
        }
    }

    /// Taking an entry of lowest priority out of the open set; the search
    /// ends when the open set is empty or the limit is reached.
    spec fn pop_step(&self, next: &HierarchicalSearch, r: SearchStep) -> bool {
        if self.core.open@.len() == 0 || self.nodes_explored + 1 >= self.max_nodes {
            self.ended(next, r)
        } else {
            &&& next.nodes_explored == self.nodes_explored + 1
            &&& exists|j: int|
                #![trigger self.core.open@[j]]
                0 <= j < self.core.open@.len() && (forall|k: int|
                    0 <= k < self.core.open@.len() ==> self.core.open@[j].f
                        <= #[trigger] self.core.open@[k].f) && next.core.open@
                    == self.core.open@.remove(j) && self.popped(next, self.core.open@[j], r)
        }
    }

    /// Waiting for the tiles of the current node's location.
    spec fn node_tiles_step(&self, next: &HierarchicalSearch, r: SearchStep) -> bool {
        if self.node_tiles@.len() == 3 {
            r is Continue && next.phase == Phase::OwnTile
        } else {
            r == SearchStep::NeedNodeTiles(self.cur().lat_micro, self.cur().lon_micro) && next.phase
                == self.phase
        }
    }

    /// The heuristics of the neighbours `cs` are asked for.
    spec fn heuristics_asked(&self, cs: Seq<Candidate>, next: &HierarchicalSearch, r: SearchStep) -> bool {
        &&& r is NeedHeuristics
        &&& next.phase == Phase::Heuristics
        &&& next.cands@ == cs
        &&& next.points@ == cs.map_values(|c: Candidate| c.point)
        &&& next.heuristics@.len() == 0
    }

    /// With the neighbours `cs` along edges found: the level transitions
    /// come next when the search may change levels, else the heuristics.
    spec fn edges_done(&self, cs: Seq<Candidate>, next: &HierarchicalSearch, r: SearchStep) -> bool {
        if self.core.levels {
            &&& r is Continue
            &&& next.phase == Phase::LevelTiles
            &&& next.cands@ == cs
            &&& next.trans@ == transition_levels(self.cur().level)
            &&& next.trans_i == 0
        } else {
            self.heuristics_asked(cs, next, r)
        }
    }

    /// Reading the current node's own tile: its neighbours along its edges,
    /// and its cross-tile edges.
    spec fn own_tile_step(&self, next: &HierarchicalSearch, cache: &TileCache, r: SearchStep) -> bool {
        let cur = self.cur();
        let pos = (cur.level, cur.tile_x, cur.tile_y);
        match cache.tile_at(pos.0, pos.1, pos.2) {
            None => if self.asked@.contains(pos) {
                self.edges_done(self.cands@, next, r)
            } else {
                self.asked_for(next, pos, r)
            },
            Some(t) => {
                &&& r is Continue
                &&& next.phase == Phase::CanonTile
                &&& next.cands@ == self.cands@ + node_cands(t, pos, cur.node_idx)
                &&& next.cross@ == cross_edges_from(t.cross_tile_edges@, cur.node_idx)
                &&& next.cross_i == 0
            },
        }
    }

    /// Reading the tile that the current node's location falls in on its
    /// level, when it is not the node's own: the neighbours of the first
    /// node there at the same location.
    spec fn canon_step(&self, next: &HierarchicalSearch, cache: &TileCache, r: SearchStep) -> bool {
        let cur = self.cur();
        let c = self.node_tiles@[level_index(cur.level)];
        let pos = (cur.level, c.0, c.1);
        if c == (cur.tile_x, cur.tile_y) || (cache.tile_at(pos.0, pos.1, pos.2) is None
            && self.asked@.contains(pos)) {
            r is Continue && next.phase == Phase::CrossTiles && next.canon@ == self.canon@
        } else {
            match cache.tile_at(pos.0, pos.1, pos.2) {
                None => self.asked_for(next, pos, r),
                Some(t) => {
                    &&& r is Continue
                    &&& next.phase == Phase::CrossTiles
                    &&& next.canon@ == self.canon@ + match first_node_at(t, cur.lat_micro, cur.lon_micro) {
                        Some(i) => node_cands(t, pos, i),
                        None => Seq::empty(),
                    }
                },
            }
        }
    }

    /// Following the current node's cross-tile edges one by one; after the
    /// last, the neighbours from the canonical tile join the others.
    spec fn cross_step_taken(&self, next: &HierarchicalSearch, cache: &TileCache, r: SearchStep) -> bool {
        let cur = self.cur();
        if self.cross_i >= self.cross@.len() {
            self.edges_done(self.cands@ + self.canon@, next, r)
        } else {
            let ce = self.cross@[self.cross_i as int];
            let pos = (cur.level, ce.target_tile_x, ce.target_tile_y);
            match cache.tile_at(pos.0, pos.1, pos.2) {
                None => if self.asked@.contains(pos) {
                    r is Continue && next.phase == self.phase && next.cross_i == self.cross_i + 1
                        && next.cands@ == self.cands@
                } else {
                    self.asked_for(next, pos, r) && next.cross_i == self.cross_i
                },
                Some(t2) => {
                    &&& r is Continue
                    &&& next.phase == self.phase
                    &&& next.cross_i == self.cross_i + 1
                    &&& next.cands@ == self.cands@ + if (ce.target_node as int) < t2.nodes@.len() {
                        seq![cross_cand(t2, pos, ce)]
                    } else {
                        Seq::empty()
                    }
                },
            }
        }
    }

    /// Reading the current node's location on the neighbouring levels one
    /// by one: the first node there at the same location is reached at no
    /// cost.
    spec fn level_tiles_step(&self, next: &HierarchicalSearch, cache: &TileCache, r: SearchStep) -> bool {
        let cur = self.cur();
        if self.trans_i >= self.trans@.len() {
            self.heuristics_asked(self.cands@, next, r)
        } else {
            let ol = self.trans@[self.trans_i as int];
            let tile = self.node_tiles@[level_index(ol)];
            let pos = (ol, tile.0, tile.1);
            match cache.tile_at(pos.0, pos.1, pos.2) {
                None => if self.asked@.contains(pos) {
                    r is Continue && next.phase == self.phase && next.trans_i == self.trans_i + 1
                        && next.cands@ == self.cands@
                } else {
                    self.asked_for(next, pos, r) && next.trans_i == self.trans_i
                },
                Some(t) => {
                    &&& r is Continue
                    &&& next.phase == self.phase
                    &&& next.trans_i == self.trans_i + 1
                    &&& next.cands@ == self.cands@ + match first_node_at(t, cur.lat_micro, cur.lon_micro) {
                        Some(i) => seq![level_cand(pos, i, cur)],
                        None => Seq::empty(),
                    }
                },
            }
        }
    }

    /// The cost at which neighbour `c` of the current node is reached.
    spec fn reach_cost(&self, c: Candidate) -> u32 {
        if c.transition {
            self.current_g
        } else {
            self.current_g.saturating_add(c.weight)
        }
    }

    /// With the neighbours' heuristics given, each neighbour is relaxed in
    /// order (see `relaxed_cost` and `relax_pushes`), and the next entry is
    /// taken out.
    spec fn heuristics_step(&self, next: &HierarchicalSearch, r: SearchStep) -> bool {
        if self.heuristics@.len() != self.cands@.len() {
            r is NeedHeuristics && next.phase == self.phase
        } else {
            &&& r is Continue
            &&& next.phase == Phase::Pop
            &&& relaxed_upto(*self, next.core, self.cands@.len() as int)
        }
    }

    /// The best known cost of the node at `id`'s location.
    pub closed spec fn known_cost(&self, id: GlobalNodeId) -> Option<u32> {
        self.core.known_in(id)
    }

    /// The node at `id`'s location has been expanded.
    pub closed spec fn is_expanded(&self, id: GlobalNodeId) -> bool {
        self.core.expanded_in(id)
    }

    /// The node that the node at `id`'s location was reached from.
    pub closed spec fn parent_of(&self, id: GlobalNodeId) -> Option<GlobalNodeId> {
        self.core.parent_in(id)
    }

    /// The open set: `(node, cost, priority)` entries.
    pub closed spec fn open_entries(&self) -> Seq<(GlobalNodeId, u32, u32)> {
        self.core.open_view()
    }

    /// The node being expanded.
    pub closed spec fn expanding_node(&self) -> GlobalNodeId {
        self.cur()
    }

    /// The search holds the heuristics of all neighbours of the node being
    /// expanded, and relaxes them at the next step.
    pub closed spec fn relaxing(&self) -> bool {
        self.phase == Phase::Heuristics && self.heuristics@.len() == self.cands@.len()
    }

    /// The neighbours of the node being expanded, in order, each with the
    /// cost of reaching it through that node and its heuristic.
    pub closed spec fn offers(&self) -> Seq<(GlobalNodeId, u32, u32)> {
        Seq::new(
            self.cands@.len(),
            |j: int| (self.cands@[j].id, self.reach_cost(self.cands@[j]), self.heuristics@[j]),
        )
    }

    /// One step of the search, by phase.
    spec fn step_spec(&self, next: &HierarchicalSearch, cache: &TileCache, r: SearchStep) -> bool {
        match self.phase {
            Phase::EndTile => self.end_tile_step(next, cache, r),
            Phase::StartTile => self.start_tile_step(next, cache, r),
            Phase::StartHeuristic => self.start_heuristic_step(next, r),
            Phase::Pop => self.pop_step(next, r),
            Phase::NodeTiles => self.node_tiles_step(next, r),
            Phase::OwnTile => self.own_tile_step(next, cache, r),
            Phase::CanonTile => self.canon_step(next, cache, r),
            Phase::CrossTiles => self.cross_step_taken(next, cache, r),
            Phase::LevelTiles => self.level_tiles_step(next, cache, r),
            Phase::Heuristics => self.heuristics_step(next, r),
            Phase::Finished => r is NotFound && *next == *self,
        }
    }

    fn make(start: GlobalNodeId, end: GlobalNodeId, level: HierarchyLevel, levels: bool, max_nodes: usize) -> (r: Self)
        ensures
            r.inv(),
            r.core.start == start,
            r.end == end,
            r.core.levels == levels,
            r.max_nodes == max_nodes,
            r.level == level,
            r.core.seen@ == Set::<((HierarchyLevel, i32, i32), RoutingTile)>::empty(),
    {
        let mut levels_seen: Vec<bool> = Vec::new();
        levels_seen.push(false);
        levels_seen.push(false);
        levels_seen.push(false);
        HierarchicalSearch {
            core: SearchCore::new(start, levels),
            end,
            level,
            max_nodes,
            target: (0, 0),
            nodes_explored: 0,
            phase: Phase::EndTile,
            current: 0,
            current_g: 0,
            node_tiles: Vec::new(),
            cands: Vec::new(),
            canon: Vec::new(),
            cross: Vec::new(),
            cross_i: 0,
            own_tile: Ghost(vstd::pervasive::arbitrary()),
            trans: Vec::new(),
            trans_i: 0,
            asked: Vec::new(),
            points: Vec::new(),
            heuristics: Vec::new(),
            levels_seen,
        }
    }

    /// A search on one level (`level` is the level of the route).
    pub fn single_level(start: GlobalNodeId, end: GlobalNodeId, level: HierarchyLevel, max_nodes: usize) -> (r: Self)
        ensures
            r.wf(),
            r.start_id() == start,
            r.end_id() == end,
            !r.across_levels(),
            r.route_level() == level,
            r.node_limit() == max_nodes,
            r.seen_tiles() == Set::<((HierarchyLevel, i32, i32), RoutingTile)>::empty(),
    {
        Self::make(start, end, level, false, max_nodes)
    }

    /// A search that may switch levels at shared locations.
    pub fn multi_level(start: GlobalNodeId, end: GlobalNodeId, max_nodes: usize) -> (r: Self)
        ensures
            r.wf(),
            r.start_id() == start,
            r.end_id() == end,
            r.across_levels(),
            r.node_limit() == max_nodes,
            r.seen_tiles() == Set::<((HierarchyLevel, i32, i32), RoutingTile)>::empty(),
    {
        Self::make(start, end, start.level, true, max_nodes)
    }

    /// The level a one-level search reports as used.
    pub closed spec fn route_level(&self) -> HierarchyLevel {
        self.level
    }

    /// The search takes the next entry out of the open set at its next step.
    pub closed spec fn taking_next(&self) -> bool {
        self.phase == Phase::Pop
    }

    /// The search reads the end node's tile at its next step.
    pub closed spec fn reading_end_tile(&self) -> bool {
        self.phase == Phase::EndTile
    }

    /// The search reads the start node's tile at its next step.
    pub closed spec fn reading_start_tile(&self) -> bool {
        self.phase == Phase::StartTile
    }

    /// The number of entries taken out of the open set so far.
    pub closed spec fn explored(&self) -> usize {
        self.nodes_explored
    }

    /// The search asked for the tile at `pos` during its current step.
    pub closed spec fn asked_before(&self, pos: (HierarchyLevel, i32, i32)) -> bool {
        self.asked@.contains(pos)
    }

    /// The search has ended.
    pub closed spec fn finished(&self) -> bool {
        self.phase == Phase::Finished
    }

    /// The search waits for heuristic values (`NeedHeuristics`).
    pub closed spec fn awaits_heuristics(&self) -> bool {
        self.phase == Phase::StartHeuristic || self.phase == Phase::Heuristics
    }

    /// The heuristic values given for the pending points.
    pub closed spec fn heuristic_values(&self) -> Seq<u32> {
        self.heuristics@
    }

    /// The search waits for the tiles of a location (`NeedNodeTiles`).
    pub closed spec fn awaits_node_tiles(&self) -> bool {
        self.phase == Phase::NodeTiles
    }

    /// The tiles given for the location of the node being expanded.
    pub closed spec fn location_tiles(&self) -> Seq<(i32, i32)> {
        self.node_tiles@
    }

    /// `next` is this search with other heuristic values only.
    pub closed spec fn same_but_heuristics(&self, next: &HierarchicalSearch) -> bool {
        *next == (HierarchicalSearch { heuristics: next.heuristics, ..*self })
    }

    /// `next` is this search with other location tiles only.
    pub closed spec fn same_but_node_tiles(&self, next: &HierarchicalSearch) -> bool {
        *next == (HierarchicalSearch { node_tiles: next.node_tiles, ..*self })
    }

    /// `next` and `r` are what one step of this search gives with `cache`:
    /// by phase, reading the end and start tiles, the start's heuristic,
    /// taking the lowest-priority entry out of the open set (ending at the
    /// goal, on an empty open set or at the limit), and the expansion of a
    /// node (its location's tiles, its own tile's edges, the canonical
    /// tile, its cross-tile edges, the other levels, the neighbours'
    /// heuristics and their relaxation).
    pub closed spec fn step_taken(&self, next: &HierarchicalSearch, cache: &TileCache, r: SearchStep) -> bool {
        self.step_spec(next, cache, r)
    }

    /// The coordinates heuristics are computed toward.
    pub closed spec fn heuristic_target(&self) -> (i32, i32) {
        self.target
    }

    /// The points whose heuristic values the search waits for.
    pub closed spec fn pending_points(&self) -> Seq<(i32, i32)> {
        self.points@
    }

    /// The coordinates heuristics are computed toward (the end node's, as
    /// its tile gives them).
    pub fn target(&self) -> (r: (i32, i32))
        ensures
            r == self.heuristic_target(),
    {
        self.target
    }

    /// The points whose heuristic values the search needs.
    pub fn heuristic_points(&self) -> (r: &Vec<(i32, i32)>)
        ensures
            r@ == self.pending_points(),
    {
        &self.points
    }

    /// Gives the heuristic values asked for by `NeedHeuristics`, one per
    /// point of `heuristic_points`.
    pub fn set_heuristics(&mut self, values: Vec<u32>)
        requires
            old(self).wf(),
        ensures
            final(self).wf(),
            final(self).start_id() == old(self).start_id(),
            final(self).end_id() == old(self).end_id(),
            final(self).across_levels() == old(self).across_levels(),
            final(self).node_limit() == old(self).node_limit(),
            final(self).seen_tiles() == old(self).seen_tiles(),
            final(self).heuristic_values() == if old(self).awaits_heuristics() {
                values@
            } else {
                old(self).heuristic_values()
            },
            old(self).same_but_heuristics(&*final(self)),
    {
        if self.phase == Phase::StartHeuristic || self.phase == Phase::Heuristics {
            self.heuristics = values;
        }
    }

    /// Gives the tile positions asked for by `NeedNodeTiles`: the tile of
    /// the location at the highway, arterial and local levels.
    pub fn set_node_tiles(&mut self, tiles: Vec<(i32, i32)>)
        requires
            old(self).wf(),
        ensures
            final(self).wf(),
            final(self).start_id() == old(self).start_id(),
            final(self).end_id() == old(self).end_id(),
            final(self).across_levels() == old(self).across_levels(),
            final(self).node_limit() == old(self).node_limit(),
            final(self).seen_tiles() == old(self).seen_tiles(),
            final(self).location_tiles() == if old(self).awaits_node_tiles() && tiles@.len() == 3 {
                tiles@
            } else {
                old(self).location_tiles()
            },
            old(self).same_but_node_tiles(&*final(self)),
    {
        if self.phase == Phase::NodeTiles && tiles.len() == 3 {
            self.node_tiles = tiles;
        }
    }

    fn step_end_tile(&mut self, cache: &TileCache) -> (r: SearchStep)
        requires
            old(self).inv(),
            old(self).phase == Phase::EndTile,
        ensures
            old(self).moved(&*final(self), cache),
            final(self).found_ok(r),
            old(self).end_tile_step(&*final(self), cache, r),
    {
        let pos = (self.end.level, self.end.tile_x, self.end.tile_y);
        match fetch(&mut self.core, &mut self.asked, cache, pos) {
            Fetch::Need => SearchStep::NeedTile(pos.0, pos.1, pos.2),
            Fetch::Absent => {
                self.phase = Phase::Finished;
                SearchStep::NotFound
            },
            Fetch::Tile(t) => match t.node(self.end.node_idx) {
                Some(n) => {
                    self.target = (n.lat, n.lon);
                    self.phase = Phase::StartTile;
                    SearchStep::Continue
                },
                None => {
                    self.phase = Phase::Finished;
                    SearchStep::NotFound
                },
            },
        }
    }

    fn step_start_tile(&mut self, cache: &TileCache) -> (r: SearchStep)
        requires
            old(self).inv(),
            old(self).phase == Phase::StartTile,
        ensures
            old(self).moved(&*final(self), cache),
            final(self).found_ok(r),
            old(self).start_tile_step(&*final(self), cache, r),
    {
        let start = self.core.start;
        let pos = (start.level, start.tile_x, start.tile_y);
        match fetch(&mut self.core, &mut self.asked, cache, pos) {
            Fetch::Need => SearchStep::NeedTile(pos.0, pos.1, pos.2),
            Fetch::Absent => {
                self.phase = Phase::Finished;
                SearchStep::NotFound
            },
            Fetch::Tile(t) => match t.node(start.node_idx) {
                Some(n) => {
                    let mut points: Vec<(i32, i32)> = Vec::new();
                    points.push((n.lat, n.lon));
                    self.points = points;
                    self.heuristics = Vec::new();
                    self.phase = Phase::StartHeuristic;
                    SearchStep::NeedHeuristics
                },
                None => {
                    self.phase = Phase::Finished;
                    SearchStep::NotFound
                },
            },
        }
    }

    fn step_start_heuristic(&mut self, cache: &TileCache) -> (r: SearchStep)
        requires
            old(self).inv(),
            old(self).phase == Phase::StartHeuristic,
        ensures
            old(self).moved(&*final(self), cache),
            final(self).found_ok(r),
            old(self).start_heuristic_step(&*final(self), r),
    {
        if self.heuristics.len() == 1 {
            let h = self.heuristics[0];
            self.core.push_start(h);
            self.phase = Phase::Pop;
            SearchStep::Continue
        } else {
            SearchStep::NeedHeuristics
        }
    }

    fn step_pop(&mut self, cache: &TileCache) -> (r: SearchStep)
        requires
            old(self).inv(),
            old(self).phase == Phase::Pop,
        ensures
            old(self).moved(&*final(self), cache),
            final(self).found_ok(r),
            old(self).pop_step(&*final(self), r),
    {
        let ghost s0 = *self;
        let e = match self.core.pop_min() {
            Some(e) => e,
            None => {
                self.phase = Phase::Finished;
                return SearchStep::NotFound;
            },
        };
        let ghost jw = choose|j: int|
            0 <= j < s0.core.open@.len() && s0.core.open@[j] == e && self.core.open@
                == s0.core.open@.remove(j) && forall|k: int|
                0 <= k < s0.core.open@.len() ==> e.f <= #[trigger] s0.core.open@[k].f;
        proof {
            assert(s0.core.open@[jw] == e);
        }
        self.nodes_explored = self.nodes_explored + 1;
        if self.nodes_explored >= self.max_nodes {
            self.phase = Phase::Finished;
            return SearchStep::NotFound;
        }
        let i = match self.core.close(e) {
            Some(i) => i,
            None => {
                return SearchStep::Continue;
            },
        };
        let li = e.id.level.index();
        self.levels_seen.set(li, true);
        let at_goal = if self.core.levels {
            e.id.lat_micro == self.end.lat_micro && e.id.lon_micro == self.end.lon_micro
        } else {
            e.id == self.end
        };
        if at_goal {
            let path = self.core.path_to(i);
            let levels_used = if self.core.levels {
                flagged_levels(&self.levels_seen)
            } else {
                let mut v: Vec<HierarchyLevel> = Vec::new();
                v.push(self.level);
                v
            };
            proof {
                if !self.core.levels {
                    assert(same_node(e.id, self.end));
                }
            }
            let route = HierarchicalRoute { path, nodes_explored: self.nodes_explored, levels_used };
            proof {
                if !self.core.levels {
                    assert(route.levels_used@[0] == self.level);
                }
                assert(route.path@.len() >= 1);
                assert(route.path@[0] == self.core.start);
                assert(route.path@.last() == e.id);
                assert(route.nodes_explored < self.max_nodes);
            }
            self.phase = Phase::Finished;
            return SearchStep::Found(route);
        }
        self.current = i;
        self.current_g = e.g;
        self.cands = Vec::new();
        self.canon = Vec::new();
        self.asked = Vec::new();
        self.node_tiles = Vec::new();
        self.phase = Phase::NodeTiles;
        SearchStep::NeedNodeTiles(e.id.lat_micro, e.id.lon_micro)
    }

    fn step_node_tiles(&mut self, cache: &TileCache) -> (r: SearchStep)
        requires
            old(self).inv(),
            old(self).phase == Phase::NodeTiles,
        ensures
            old(self).moved(&*final(self), cache),
            final(self).found_ok(r),
            old(self).node_tiles_step(&*final(self), r),
    {
        if self.node_tiles.len() == 3 {
            self.phase = Phase::OwnTile;
            SearchStep::Continue
        } else {
            let cur = self.core.slots[self.current].id;
            SearchStep::NeedNodeTiles(cur.lat_micro, cur.lon_micro)
        }
    }

    /// After the same-tile, cross-tile and canonical-tile neighbours: the
    /// level transitions, when the search may change levels.
    fn after_edges(&mut self) -> (r: SearchStep)
        requires
            old(self).inv(),
            old(self).expanding(),
            old(self).phase != Phase::Heuristics,
            old(self).node_tiles@.len() == 3,
        ensures
            old(self).kept(&*final(self)),
            final(self).found_ok(r),
            old(self).edges_done(old(self).cands@, &*final(self), r),
    {
        if self.core.levels {
            let cur = self.core.slots[self.current].id;
            self.trans = other_levels(cur.level);
            self.trans_i = 0;
            self.phase = Phase::LevelTiles;
            SearchStep::Continue
        } else {
            self.enter_heuristics()
        }
    }

    /// Asks for the heuristic values of the neighbours found.
    fn enter_heuristics(&mut self) -> (r: SearchStep)
        requires
            old(self).inv(),
            old(self).expanding(),
            old(self).node_tiles@.len() == 3,
        ensures
            old(self).kept(&*final(self)),
            final(self).found_ok(r),
            old(self).heuristics_asked(old(self).cands@, &*final(self), r),
    {
        let mut points: Vec<(i32, i32)> = Vec::new();
        let mut k: usize = 0;
        while k < self.cands.len()
            invariant
                k <= self.cands@.len(),
                points@ == self.cands@.subrange(0, k as int).map_values(|c: Candidate| c.point),
            decreases self.cands@.len() - k,
        {
            points.push(self.cands[k].point);
            k = k + 1;
            proof {
                assert(points@ =~= self.cands@.subrange(0, k as int).map_values(|c: Candidate| c.point));
            }
        }
        proof {
            assert(self.cands@.subrange(0, k as int) =~= self.cands@);
        }
        self.points = points;
        self.heuristics = Vec::new();
        self.phase = Phase::Heuristics;
        SearchStep::NeedHeuristics
    }

    fn step_own_tile(&mut self, cache: &TileCache) -> (r: SearchStep)
        requires
            old(self).inv(),
            old(self).phase == Phase::OwnTile,
        ensures
            old(self).moved(&*final(self), cache),
            final(self).found_ok(r),
            old(self).own_tile_step(&*final(self), cache, r),
    {
        let cur = self.core.slots[self.current].id;
        let pos = (cur.level, cur.tile_x, cur.tile_y);
        let ghost seen0 = self.core.seen@;
        let fetched = fetch(&mut self.core, &mut self.asked, cache, pos);
        proof {
            lemma_cands_grow(seen0, self.core.seen@, cur, self.cands@, self.core.levels);
            lemma_cands_grow(seen0, self.core.seen@, cur, self.canon@, self.core.levels);
        }
        match fetched {
            Fetch::Need => SearchStep::NeedTile(pos.0, pos.1, pos.2),
            Fetch::Absent => self.after_edges(),
            Fetch::Tile(t) => {
                let ghost before = self.cands@;
                push_edge_neighbours(t, pos, cur.node_idx, &mut self.cands);
                proof {
                    assert forall|k: int| 0 <= k < self.cands@.len() implies search_step(
                        self.core.seen@,
                        cur,
                        #[trigger] self.cands@[k].id,
                        self.core.levels,
                    ) by {
                        if k >= before.len() {
                            assert(tile_step(pos, *t, cur, self.cands@[k].id, self.core.levels));
                            assert(self.core.seen@.contains((pos, *t)));
                        } else {
                            assert(self.cands@[k] == before[k]);
                        }
                    }
                }
                self.cross = t.cross_tile_edges_for_node(cur.node_idx);
                self.cross_i = 0;
                self.own_tile = Ghost(*t);
                self.phase = Phase::CanonTile;
                SearchStep::Continue
            },
        }
    }

    fn step_canon(&mut self, cache: &TileCache) -> (r: SearchStep)
        requires
            old(self).inv(),
            old(self).phase == Phase::CanonTile,
        ensures
            old(self).moved(&*final(self), cache),
            final(self).found_ok(r),
            old(self).canon_step(&*final(self), cache, r),
    {
        let cur = self.core.slots[self.current].id;
        let li = cur.level.index();
        let canonical = self.node_tiles[li];
        if canonical.0 == cur.tile_x && canonical.1 == cur.tile_y {
            self.phase = Phase::CrossTiles;
            return SearchStep::Continue;
        }
        let pos = (cur.level, canonical.0, canonical.1);
        let ghost seen0 = self.core.seen@;
        let fetched = fetch(&mut self.core, &mut self.asked, cache, pos);
        proof {
            lemma_cands_grow(seen0, self.core.seen@, cur, self.cands@, self.core.levels);
            lemma_cands_grow(seen0, self.core.seen@, cur, self.canon@, self.core.levels);
        }
        match fetched {
            Fetch::Need => SearchStep::NeedTile(pos.0, pos.1, pos.2),
            Fetch::Absent => {
                self.phase = Phase::CrossTiles;
                SearchStep::Continue
            },
            Fetch::Tile(t) => {
                if let Some(i) = find_node_at(t, cur.lat_micro, cur.lon_micro) {
                    let ghost before = self.canon@;
                    push_edge_neighbours(t, pos, i, &mut self.canon);
                    proof {
                        assert forall|k: int| 0 <= k < self.canon@.len() implies search_step(
                            self.core.seen@,
                            cur,
                            #[trigger] self.canon@[k].id,
                            self.core.levels,
                        ) by {
                            if k >= before.len() {
                                assert(node_at(*t, i as int, cur.lat_micro, cur.lon_micro));
                                assert(edge_step(*t, pos, i as int, self.canon@[k].id));
                                assert(tile_step(pos, *t, cur, self.canon@[k].id, self.core.levels));
                                assert(self.core.seen@.contains((pos, *t)));
                            } else {
                                assert(self.canon@[k] == before[k]);
                            }
                        }
                    }
                }
                self.phase = Phase::CrossTiles;
                SearchStep::Continue
            },
        }
    }

    fn step_cross(&mut self, cache: &TileCache) -> (r: SearchStep)
        requires
            old(self).inv(),
            old(self).phase == Phase::CrossTiles,
        ensures
            old(self).moved(&*final(self), cache),
            final(self).found_ok(r),
            old(self).cross_step_taken(&*final(self), cache, r),
    {
        let cur = self.core.slots[self.current].id;
        if self.cross_i >= self.cross.len() {
            let ghost before = self.cands@;
            append_candidates(&mut self.cands, &self.canon);
            proof {
                assert forall|j: int| 0 <= j < self.cands@.len() implies search_step(
                    self.core.seen@,
                    cur,
                    #[trigger] self.cands@[j].id,
                    self.core.levels,
                ) by {
                    if j < before.len() {
                        assert(self.cands@[j] == before[j]);
                    } else {
                        assert(self.cands@[j] == self.canon@[j - before.len()]);
                    }
                }
            }
            return self.after_edges();
        }
        let ce = self.cross[self.cross_i];
        let pos = (cur.level, ce.target_tile_x, ce.target_tile_y);
        let ghost seen0 = self.core.seen@;
        let fetched = fetch(&mut self.core, &mut self.asked, cache, pos);
        proof {
            lemma_cands_grow(seen0, self.core.seen@, cur, self.cands@, self.core.levels);
            lemma_cands_grow(seen0, self.core.seen@, cur, self.canon@, self.core.levels);
        }
        match fetched {
            Fetch::Need => SearchStep::NeedTile(pos.0, pos.1, pos.2),
            Fetch::Absent => {
                self.cross_i = self.cross_i + 1;
                SearchStep::Continue
            },
            Fetch::Tile(t2) => {
                let ghost before0 = self.cands@;
                proof {
                    if (ce.target_node as int) >= t2.nodes@.len() {
                        assert(self.cands@ =~= before0 + Seq::<Candidate>::empty());
                    }
                }
                if let Some(n) = t2.node(ce.target_node) {
                    let id = GlobalNodeId::with_coords(
                        cur.level,
                        ce.target_tile_x,
                        ce.target_tile_y,
                        ce.target_node,
                        n.lat,
                        n.lon,
                    );
                    let plat = if n.lat != 0 {
                        n.lat
                    } else {
                        ce.target_tile_x
                    };
                    let plon = if n.lon != 0 {
                        n.lon
                    } else {
                        ce.target_tile_y
                    };
                    let w = ce.weight();
                    let ghost before = self.cands@;
                    proof {
                        let p1 = (cur.level, cur.tile_x, cur.tile_y);
                        let j = self.cross_i as int;
                        assert(cross_edges_from(self.own_tile@.cross_tile_edges@, cur.node_idx)[j]
                            == ce);
                        assert(id == tile_node_id(*t2, pos, ce.target_node));
                        assert(cross_step(p1, self.own_tile@, pos, *t2, cur, id));
                        assert(self.core.seen@.contains((p1, self.own_tile@)));
                        assert(self.core.seen@.contains((pos, *t2)));
                        assert(search_step(self.core.seen@, cur, id, self.core.levels));
                    }
                    self.cands.push(Candidate { id, weight: w, point: (plat, plon), transition: false });
                    proof {
                        assert(self.cands@ =~= before0 + seq![cross_cand(*t2, pos, ce)]);
                        assert forall|k: int| 0 <= k < self.cands@.len() implies search_step(
                            self.core.seen@,
                            cur,
                            #[trigger] self.cands@[k].id,
                            self.core.levels,
                        ) by {
                            if k < before.len() {
                                assert(self.cands@[k] == before[k]);
                            }
                        }
                    }
                }
                self.cross_i = self.cross_i + 1;
                SearchStep::Continue
            },
        }
    }

    fn step_level_tiles(&mut self, cache: &TileCache) -> (r: SearchStep)
        requires
            old(self).inv(),
            old(self).phase == Phase::LevelTiles,
        ensures
            old(self).moved(&*final(self), cache),
            final(self).found_ok(r),
            old(self).level_tiles_step(&*final(self), cache, r),
    {
        if self.trans_i >= self.trans.len() {
            return self.enter_heuristics();
        }
        let cur = self.core.slots[self.current].id;
        let ol = self.trans[self.trans_i];
        let tile = self.node_tiles[ol.index()];
        let pos = (ol, tile.0, tile.1);
        let ghost seen0 = self.core.seen@;
        let fetched = fetch(&mut self.core, &mut self.asked, cache, pos);
        proof {
            lemma_cands_grow(seen0, self.core.seen@, cur, self.cands@, self.core.levels);
            lemma_cands_grow(seen0, self.core.seen@, cur, self.canon@, self.core.levels);
        }
        match fetched {
            Fetch::Need => SearchStep::NeedTile(pos.0, pos.1, pos.2),
            Fetch::Absent => {
                self.trans_i = self.trans_i + 1;
                SearchStep::Continue
            },
            Fetch::Tile(t) => {
                let ghost before0 = self.cands@;
                let found = find_node_at(t, cur.lat_micro, cur.lon_micro);
                proof {
                    lemma_first_node_at(*t, cur.lat_micro, cur.lon_micro, found);
                    if found is None {
                        assert(self.cands@ =~= before0 + Seq::<Candidate>::empty());
                    }
                }
                if let Some(i) = found {
                    let id = GlobalNodeId::with_coords(ol, tile.0, tile.1, i, cur.lat_micro, cur.lon_micro);
                    let ghost before = self.cands@;
                    proof {
                        assert(transition_levels(cur.level)[self.trans_i as int] == ol);
                        assert(transition_levels(cur.level).contains(ol));
                        assert(tile_step(pos, *t, cur, id, self.core.levels));
                        assert(self.core.seen@.contains((pos, *t)));
                    }
                    self.cands.push(
                        Candidate { id, weight: 0, point: (cur.lat_micro, cur.lon_micro), transition: true },
                    );
                    proof {
                        assert(self.cands@ =~= before0 + seq![level_cand(pos, i, cur)]);
                        assert forall|k: int| 0 <= k < self.cands@.len() implies search_step(
                            self.core.seen@,
                            cur,
                            #[trigger] self.cands@[k].id,
                            self.core.levels,
                        ) by {
                            if k < before.len() {
                                assert(self.cands@[k] == before[k]);
                            }
                        }
                    }
                }
                self.trans_i = self.trans_i + 1;
                SearchStep::Continue
            },
        }
    }

    #[verifier::spinoff_prover]
    #[verifier::rlimit(40)]
    fn step_heuristics(&mut self, cache: &TileCache) -> (r: SearchStep)
        requires
            old(self).inv(),
            old(self).phase == Phase::Heuristics,
        ensures
            old(self).moved(&*final(self), cache),
            final(self).found_ok(r),
            old(self).heuristics_step(&*final(self), r),
    {
        if self.heuristics.len() != self.cands.len() {
            return SearchStep::NeedHeuristics;
        }
        let ghost cur = self.core.slots@[self.current as int].id;
        proof {
            assert(self.core.open_view() =~= self.open_entries() + relax_pushes(*self, 0));
        }
        let mut k: usize = 0;
        while k < self.cands.len()
            invariant
                self.core.wf(),
                (self.current as int) < self.core.slots@.len(),
                self.core.slots@[self.current as int].closed,
                self.core.slots@[self.current as int].id == cur,
                self.heuristics@.len() == self.cands@.len(),
                k <= self.cands@.len(),
                forall|j: int|
                    0 <= j < self.cands@.len() ==> search_step(
                        self.core.seen@,
                        cur,
                        #[trigger] self.cands@[j].id,
                        self.core.levels,
                    ),
                self.core.start == old(self).core.start,
                self.core.levels == old(self).core.levels,
                self.core.seen@ == old(self).core.seen@,
                self.levels_seen@.len() == 3,
                self.nodes_explored == old(self).nodes_explored,
                self.max_nodes == old(self).max_nodes,
                self.end == old(self).end,
                self.phase == Phase::Heuristics,
                old(self).phase == Phase::Heuristics,
                old(self).inv(),
                self.cands@ == old(self).cands@,
                self.current_g == old(self).current_g,
                self.level == old(self).level,
                self.current == old(self).current,
                self.heuristics@ == old(self).heuristics@,
                old(self).core.grows_to(&self.core),
                relaxed_upto(*old(self), self.core, k as int),
            decreases self.cands@.len() - k,
        {
            let c = self.cands[k];
            let tentative = if c.transition {
                self.current_g
            } else {
                self.current_g.saturating_add(c.weight)
            };
            let h = self.heuristics[k];
            let ghost c0 = self.core;
            self.core.relax(self.current, c.id, tentative, h);
            proof {
                lemma_relax_step(*old(self), c0, self.core, k as int);
            }
            k = k + 1;
        }
        self.phase = Phase::Pop;
        proof {
            assert(k == old(self).cands@.len());
            assert(old(self).heuristics_step(&*self, SearchStep::Continue));
        }
        SearchStep::Continue
    }

    /// Runs one step of the search and says what it needs to go on, or how
    /// it ended. Tiles read from the cache are recorded in `seen_tiles`; a
    /// found route is a path of the search graph of those tiles.
    pub fn advance(&mut self, cache: &TileCache) -> (r: SearchStep)
        requires
            old(self).wf(),
        ensures
            final(self).wf(),
            final(self).start_id() == old(self).start_id(),
            final(self).end_id() == old(self).end_id(),
            final(self).across_levels() == old(self).across_levels(),
            final(self).node_limit() == old(self).node_limit(),
            old(self).seen_tiles().subset_of(final(self).seen_tiles()),
            forall|x: ((HierarchyLevel, i32, i32), RoutingTile)|
                #[trigger] final(self).seen_tiles().contains(x) && !old(self).seen_tiles().contains(x)
                    ==> cache.tile_at(x.0.0, x.0.1, x.0.2) == Some(x.1),
            r matches SearchStep::Found(route) ==> route_ok(
                final(self).start_id(),
                final(self).end_id(),
                final(self).across_levels(),
                final(self).seen_tiles(),
                route,
            ) && route.nodes_explored < final(self).node_limit(),
            r matches SearchStep::Found(route) ==> 1 <= route.nodes_explored,
            !old(self).across_levels() ==> (r matches SearchStep::Found(route) ==> route.levels_used@
                == seq![old(self).route_level()]),
            !old(self).across_levels() ==> (r matches SearchStep::Found(route) ==> forall|i: int|
                0 <= i < route.path@.len() ==> (#[trigger] route.path@[i]).level
                    == old(self).start_id().level),
            final(self).route_level() == old(self).route_level(),
            old(self).step_taken(&*final(self), cache, r),
            r matches SearchStep::NeedTile(l, x, y) ==> cache.tile_at(l, x, y) is None,
            r is NeedHeuristics ==> final(self).awaits_heuristics(),
            r is NeedNodeTiles ==> final(self).awaits_node_tiles(),
            r is NotFound ==> final(self).finished(),
            old(self).finished() ==> r is NotFound && *final(self) == *old(self),
    {
        let r = match self.phase {
            Phase::EndTile => self.step_end_tile(cache),
            Phase::StartTile => self.step_start_tile(cache),
            Phase::StartHeuristic => self.step_start_heuristic(cache),
            Phase::Pop => self.step_pop(cache),
            Phase::NodeTiles => self.step_node_tiles(cache),
            Phase::OwnTile => self.step_own_tile(cache),
            Phase::CanonTile => self.step_canon(cache),
            Phase::CrossTiles => self.step_cross(cache),
            Phase::LevelTiles => self.step_level_tiles(cache),
            Phase::Heuristics => self.step_heuristics(cache),
            Phase::Finished => SearchStep::NotFound,
        };
        proof {
            if r is Found && !self.core.levels {
                lemma_route_on_level(self.core.start, self.end, self.core.seen@, r->Found_0);
            }
        }
        r
    }
}

// ---------------------------------------------------------------------------
// The router and route metrics
// ---------------------------------------------------------------------------

/// Hierarchical router settings.
pub struct HierarchicalRouter {
    /// Maximum number of open-set entries to take out before giving up.
    pub max_nodes: usize,
}

impl HierarchicalRouter {
    /// A router that explores at most 500 000 nodes per search (forward
    /// A* needs many nodes for long routes).
    pub fn new() -> (r: Self)
        ensures
            r.max_nodes == 500_000,
    {
        HierarchicalRouter { max_nodes: 500_000 }
    }

    /// Set maximum nodes to explore.
    pub fn with_max_nodes(self, max: usize) -> (r: Self)
        ensures
            r.max_nodes == max,
    {
        HierarchicalRouter { max_nodes: max }
    }

    /// An A* search on one level.
    pub fn astar(&self, start: GlobalNodeId, end: GlobalNodeId, level: HierarchyLevel) -> (r: HierarchicalSearch)
        ensures
            r.wf(),
            r.start_id() == start,
            r.end_id() == end,
            !r.across_levels(),
            r.route_level() == level,
            r.node_limit() == self.max_nodes,
            r.seen_tiles() == Set::<((HierarchyLevel, i32, i32), RoutingTile)>::empty(),
    {
        HierarchicalSearch::single_level(start, end, level, self.max_nodes)
    }

    /// An A* search that may use roads of every level, switching level at
    /// shared locations.
    pub fn astar_multi_level(&self, start: GlobalNodeId, end: GlobalNodeId) -> (r: HierarchicalSearch)
        ensures
            r.wf(),
            r.start_id() == start,
            r.end_id() == end,
            r.across_levels(),
            r.node_limit() == self.max_nodes,
            r.seen_tiles() == Set::<((HierarchyLevel, i32, i32), RoutingTile)>::empty(),
    {
        HierarchicalSearch::multi_level(start, end, self.max_nodes)
    }
}

/// Index of the first cross-tile edge of `cs` that leads to `to`'s tile
/// and node (or `cs.len()`).
pub open spec fn first_cross_to(cs: Seq<CrossTileEdge>, to: GlobalNodeId) -> int
    decreases cs.len(),
{
    if cs.len() == 0 {
        0
    } else if cs[0].target_tile_x == to.tile_x && cs[0].target_tile_y == to.tile_y
        && cs[0].target_node == to.node_idx {
        0
    } else {
        1 + first_cross_to(cs.drop_first(), to)
    }
}

proof fn lemma_first_cross_to_exact(cs: Seq<CrossTileEdge>, to: GlobalNodeId, k: int)
    requires
        0 <= k <= cs.len(),
        forall|j: int|
            0 <= j < k ==> !(cs[j].target_tile_x == to.tile_x && cs[j].target_tile_y == to.tile_y
                && cs[j].target_node == to.node_idx),
        k < cs.len() ==> cs[k].target_tile_x == to.tile_x && cs[k].target_tile_y == to.tile_y
            && cs[k].target_node == to.node_idx,
    ensures
        first_cross_to(cs, to) == k,
    decreases k,
{
    if k > 0 {
        lemma_first_cross_to_exact(cs.drop_first(), to, k - 1);
    }
}

/// Whether node `u`'s edge block starts inside the edge array (an unknown
/// node has an empty block).
pub open spec fn block_ok(tile: RoutingTile, u: u32) -> bool {
    (u as int) < tile.nodes@.len() ==> tile.nodes@[u as int].first_edge <= tile.edges@.len()
}

/// The edges leaving node `u` (none when its block is malformed).
pub open spec fn block_edges(tile: RoutingTile, u: u32) -> Seq<RoutingEdge> {
    if block_ok(tile, u) {
        tile.out_edges(u as int)
    } else {
        Seq::<RoutingEdge>::empty()
    }
}

/// The edge that a route step from `from` to `to` takes in `from`'s tile,
/// as (distance in cm, speed in km/h): the first same-tile edge to `to`'s
/// node when both are in the same tile, else the first cross-tile edge to
/// `to`'s tile and node. With `same_level`, only steps that stay on one
/// level count.
pub open spec fn step_edge_data(tile: RoutingTile, from: GlobalNodeId, to: GlobalNodeId, same_level: bool) -> Option<(u32, u8)> {
    let es = block_edges(tile, from.node_idx);
    let i = first_edge_to(es, to.node_idx);
    let level_ok = !same_level || to.level == from.level;
    let cs = cross_edges_from(tile.cross_tile_edges@, from.node_idx);
    let j = first_cross_to(cs, to);
    if to.tile_x == from.tile_x && to.tile_y == from.tile_y && level_ok && i < es.len() {
        Some((es[i].distance_cm, es[i].speed_kmh))
    } else if level_ok && j < cs.len() {
        Some((cs[j].distance_cm, cs[j].speed_kmh))
    } else {
        None
    }
}

/// The edge data of one route step, for summing a route's distance and
/// travel time; `tile` is `from`'s tile.
pub fn path_step_edge(tile: &RoutingTile, from: GlobalNodeId, to: GlobalNodeId, same_level: bool) -> (r: Option<(u32, u8)>)
    ensures
        r == step_edge_data(*tile, from, to, same_level),
{
    let level_ok = !same_level || to.level == from.level;
    let ghost es_spec = block_edges(*tile, from.node_idx);
    let ghost same_tile = to.tile_x == from.tile_x && to.tile_y == from.tile_y && level_ok;
    if to.tile_x == from.tile_x && to.tile_y == from.tile_y && level_ok {
        let valid = !((from.node_idx as usize) < tile.nodes.len()
            && tile.nodes[from.node_idx as usize].first_edge as usize > tile.edges.len());
        if valid {
            let es = tile.edges_for_node(from.node_idx);
            assert(es_spec == es@);
            let mut k: usize = 0;
            while k < es.len()
                invariant
                    es@ == tile.out_edges(from.node_idx as int),
                    es_spec == es@,
                    es_spec == block_edges(*tile, from.node_idx),
                    same_tile,
                    same_tile == (to.tile_x == from.tile_x && to.tile_y == from.tile_y && (
                    !same_level || to.level == from.level)),
                    k <= es@.len(),
                    forall|j: int| 0 <= j < k ==> es@[j].target != to.node_idx,
                decreases es@.len() - k,
            {
                if es[k].target == to.node_idx {
                    proof {
                        lemma_first_edge_to_exact(es@, to.node_idx, k as int);
                        assert(es_spec == es@);
                    }
                    return Some((es[k].distance_cm, es[k].speed_kmh));
                }
                k = k + 1;
            }
            proof {
                lemma_first_edge_to_exact(es@, to.node_idx, es@.len() as int);
                assert(es_spec == es@);
            }
        } else {
            proof {
                lemma_first_edge_to_exact(Seq::<RoutingEdge>::empty(), to.node_idx, 0);
                assert(es_spec == Seq::<RoutingEdge>::empty());
            }
        }
    }
    assert(!(same_tile && first_edge_to(es_spec, to.node_idx) < es_spec.len()));
    if !level_ok {
        return None;
    }
    let cs = tile.cross_tile_edges_for_node(from.node_idx);
    let mut k: usize = 0;
    while k < cs.len()
        invariant
            cs@ == cross_edges_from(tile.cross_tile_edges@, from.node_idx),
            level_ok == (!same_level || to.level == from.level),
            level_ok,
            es_spec == block_edges(*tile, from.node_idx),
            same_tile == (to.tile_x == from.tile_x && to.tile_y == from.tile_y && level_ok),
            !(same_tile && first_edge_to(es_spec, to.node_idx) < es_spec.len()),
            k <= cs@.len(),
            forall|j: int|
                0 <= j < k ==> !(cs@[j].target_tile_x == to.tile_x && cs@[j].target_tile_y == to.tile_y
                    && cs@[j].target_node == to.node_idx),
        decreases cs@.len() - k,
    {
        if cs[k].target_tile_x == to.tile_x && cs[k].target_tile_y == to.tile_y && cs[k].target_node
            == to.node_idx {
            proof {
                lemma_first_cross_to_exact(cs@, to, k as int);
            }
            return Some((cs[k].distance_cm, cs[k].speed_kmh));
        }
        k = k + 1;
    }
    proof {
        lemma_first_cross_to_exact(cs@, to, cs@.len() as int);
    }
    None
}

/// The node an id names, when its tile is in the cache.
pub fn cached_node(cache: &TileCache, id: &GlobalNodeId) -> (r: Option<RoutingNode>)
    ensures
        match cache.tile_at(id.level, id.tile_x, id.tile_y) {
            Some(t) => if (id.node_idx as int) < t.nodes@.len() {
                r == Some(t.nodes@[id.node_idx as int])
            } else {
                r is None
            },
            None => r is None,
        },
{
    match cache.cached(id.level, id.tile_x, id.tile_y) {
        Some(t) => match t.node(id.node_idx) {
            Some(n) => Some(*n),
            None => None,
        },
        None => None,
    }
}

} // verus!
