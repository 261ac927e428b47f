//! A* routing inside a single routing tile.
use vstd::prelude::*;

use crate::routing::types::{travel_weight, HierarchyLevel, RoutingEdge, RoutingTile};

verus! {

/// A node reference that can span multiple tiles.
#[derive(Debug, Clone, Copy, PartialEq, Eq, Hash, Structural)]
pub struct NodeRef {
    /// Tile X coordinate.
    pub tile_x: i32,
    /// Tile Y coordinate.
    pub tile_y: i32,
    /// Node index within the tile.
    pub node_idx: u32,
    /// Hierarchy level.
    pub level: HierarchyLevel,
}

impl NodeRef {
    pub fn new(level: HierarchyLevel, tile_x: i32, tile_y: i32, node_idx: u32) -> (r: Self)
        ensures
            r.level == level,
            r.tile_x == tile_x,
            r.tile_y == tile_y,
            r.node_idx == node_idx,
    {
        NodeRef { tile_x, tile_y, node_idx, level }
    }
}

// ---------------------------------------------------------------------------
// The graph of a tile
// ---------------------------------------------------------------------------

/// `v` is a node of the tile and the target of an edge leaving `u`.
pub open spec fn has_edge(tile: &RoutingTile, u: int, v: int) -> bool {
    &&& 0 <= v < tile.nodes@.len()
    &&& exists|k: int| 0 <= k < tile.out_edges(u).len() && #[trigger] tile.out_edges(u)[k].target == v
}

/// `p` is a non-empty walk through nodes of the tile along its edges.
pub open spec fn is_walk(tile: &RoutingTile, p: Seq<u32>) -> bool {
    &&& p.len() > 0
    &&& forall|i: int| 0 <= i < p.len() ==> #[trigger] p[i] < tile.nodes@.len()
    &&& forall|i: int| 0 <= i < p.len() - 1 ==> has_edge(tile, #[trigger] p[i] as int, p[i + 1] as int)
}

/// Some walk in the tile leads from node `s` to node `t`.
pub open spec fn reachable(tile: &RoutingTile, s: int, t: int) -> bool {
    exists|p: Seq<u32>| #[trigger] is_walk(tile, p) && p[0] == s && p.last() == t
}

/// Index of the first edge of `es` that targets `v` (or `es.len()`).
pub open spec fn first_edge_to(es: Seq<RoutingEdge>, v: u32) -> int
    decreases es.len(),
{
    if es.len() == 0 {
        0
    } else if es[0].target == v {
        0
    } else {
        1 + first_edge_to(es.drop_first(), v)
    }
}

/// The edge used between two consecutive nodes of a walk: the first edge
/// leaving `u` that targets `v`.
pub open spec fn step_edge(tile: &RoutingTile, u: int, v: u32) -> RoutingEdge {
    tile.out_edges(u)[first_edge_to(tile.out_edges(u), v)]
}

/// The nodes of a walk, as references into the tile.
pub open spec fn node_refs(tile: &RoutingTile, p: Seq<u32>) -> Seq<NodeRef> {
    Seq::new(
        p.len(),
        |i: int|
            NodeRef { tile_x: tile.tile_x, tile_y: tile.tile_y, node_idx: p[i], level: tile.level },
    )
}

/// The edges walked along `p`, one per step.
pub open spec fn walk_edges(tile: &RoutingTile, p: Seq<u32>) -> Seq<RoutingEdge> {
    Seq::new((p.len() - 1) as nat, |i: int| step_edge(tile, p[i] as int, p[i + 1]))
}

/// The least weight of the edges of `es` that target `v` (none when no
/// edge does).
pub open spec fn cheapest_to(es: Seq<RoutingEdge>, v: u32) -> Option<u32>
    decreases es.len(),
{
    if es.len() == 0 {
        None
    } else {
        let rest = cheapest_to(es.drop_last(), v);
        let e = es.last();
        let w = travel_weight(e.distance_cm, e.speed_kmh);
        if e.target == v {
            match rest {
                Some(m) => Some(if w < m { w } else { m }),
                None => Some(w),
            }
        } else {
            rest
        }
    }
}

/// The weight of the step from `u` to `v`: the least weight of the edges
/// from `u` to `v`.
pub open spec fn hop_weight(tile: &RoutingTile, u: int, v: u32) -> u32 {
    cheapest_to(tile.out_edges(u), v).unwrap()
}

/// The cost of the first `i` steps of walk `p`, adding step weights with
/// saturation at `u32::MAX`.
pub open spec fn prefix_cost(tile: &RoutingTile, p: Seq<u32>, i: int) -> u32
    decreases i,
{
    if i <= 0 {
        0
    } else {
        prefix_cost(tile, p, i - 1).saturating_add(hop_weight(tile, p[i - 1] as int, p[i]))
    }
}

/// The cost of walk `p`: the sum of its step weights, saturating at
/// `u32::MAX`.
pub open spec fn walk_cost(tile: &RoutingTile, p: Seq<u32>) -> u32 {
    prefix_cost(tile, p, p.len() - 1)
}

/// `h` is a consistent heuristic toward `end`: zero at `end`, and along
/// every edge of the tile it drops by no more than the edge's weight.
pub open spec fn consistent(tile: &RoutingTile, h: Seq<u32>, end: int) -> bool {
    &&& h.len() == tile.nodes@.len()
    &&& h[end] == 0
    &&& forall|u: int, k: int|
        0 <= u < tile.nodes@.len() && 0 <= k < tile.out_edges(u).len()
            && tile.out_edges(u)[k].target < tile.nodes@.len() ==> h[u] <= travel_weight(
            #[trigger] tile.out_edges(u)[k].distance_cm,
            tile.out_edges(u)[k].speed_kmh,
        ) + h[tile.out_edges(u)[k].target as int]
}

/// The cheapest edge to `v` is no heavier than any edge to `v`, and is one
/// of them.
proof fn lemma_cheapest_to(es: Seq<RoutingEdge>, v: u32)
    ensures
        forall|k: int|
            0 <= k < es.len() && #[trigger] es[k].target == v ==> cheapest_to(es, v) is Some
                && cheapest_to(es, v).unwrap() <= travel_weight(es[k].distance_cm, es[k].speed_kmh),
        cheapest_to(es, v) is Some ==> exists|k: int|
            0 <= k < es.len() && #[trigger] es[k].target == v && cheapest_to(es, v).unwrap()
                == travel_weight(es[k].distance_cm, es[k].speed_kmh),
    decreases es.len(),
{
    if es.len() > 0 {
        let d = es.drop_last();
        lemma_cheapest_to(d, v);
        assert forall|k: int|
            0 <= k < es.len() && #[trigger] es[k].target == v implies cheapest_to(es, v) is Some
                && cheapest_to(es, v).unwrap() <= travel_weight(es[k].distance_cm, es[k].speed_kmh) by {
            if k < es.len() - 1 {
                assert(d[k] == es[k]);
            }
        }
        if cheapest_to(es, v) is Some {
            let e = es.last();
            let w = travel_weight(e.distance_cm, e.speed_kmh);
            if e.target == v && (cheapest_to(d, v) is None || w < cheapest_to(d, v).unwrap()) {
                assert(es[es.len() - 1].target == v);
            } else {
                let k = choose|k: int|
                    0 <= k < d.len() && #[trigger] d[k].target == v && cheapest_to(d, v).unwrap()
                        == travel_weight(d[k].distance_cm, d[k].speed_kmh);
                assert(es[k] == d[k]);
            }
        }
    }
}

proof fn lemma_first_edge_to(es: Seq<RoutingEdge>, v: u32)
    ensures
        0 <= first_edge_to(es, v) <= es.len(),
        first_edge_to(es, v) < es.len() ==> es[first_edge_to(es, v)].target == v,
        forall|j: int| 0 <= j < first_edge_to(es, v) ==> es[j].target != v,
    decreases es.len(),
{
    if es.len() > 0 && es[0].target != v {
        lemma_first_edge_to(es.drop_first(), v);
        assert forall|j: int| 0 <= j < first_edge_to(es, v) implies es[j].target != v by {
            if j > 0 {
                assert(es[j] == es.drop_first()[j - 1]);
            }
        }
    }
}

// ---------------------------------------------------------------------------
// Search state
// ---------------------------------------------------------------------------

/// Entry in the A* open list.
#[derive(Debug, Clone, Copy)]
struct AStarEntry {
    /// Node index within the tile.
    node: u32,
    /// Cost from start (g-score).
    g_cost: u32,
    /// Estimated total cost (f-score = g + h).
    f_cost: u32,
}

spec fn sat_add(a: u32, b: u32) -> u32 {
    if a + b > u32::MAX {
        u32::MAX
    } else {
        (a + b) as u32
    }
}

spec fn gval(g: Seq<Option<u32>>, v: int) -> int {
    g[v].unwrap() as int
}

/// In the parent forest, `p` ranks strictly below `v`: smaller cost, or the
/// same cost and an older update.
spec fn rank_lt(g: Seq<Option<u32>>, stamp: Seq<nat>, p: int, v: int) -> bool {
    gval(g, p) < gval(g, v) || (gval(g, p) == gval(g, v) && stamp[p] < stamp[v])
}

/// Every edge leaving `u` towards a node of the tile reaches a node whose
/// best known cost is at most `gu` plus the edge's weight.
spec fn closed(tile: &RoutingTile, g: Seq<Option<u32>>, u: int, gu: u32) -> bool {
    forall|k: int|
        0 <= k < tile.out_edges(u).len() && tile.out_edges(u)[k].target < tile.nodes@.len()
            ==> #[trigger] g[tile.out_edges(u)[k].target as int] is Some && gval(
            g,
            tile.out_edges(u)[k].target as int,
        ) <= sat_add(
            gu,
            travel_weight(tile.out_edges(u)[k].distance_cm, tile.out_edges(u)[k].speed_kmh),
        )
}

/// The open list holds an entry for `v` at cost `c`.
spec fn in_open(open: Seq<AStarEntry>, v: int, c: u32) -> bool {
    exists|i: int| 0 <= i < open.len() && #[trigger] open[i].node == v && open[i].g_cost == c
}

spec fn has_entry(open: Seq<AStarEntry>, v: int) -> bool {
    exists|i: int| 0 <= i < open.len() && #[trigger] open[i].node == v
}

/// The parent forest: parents are tile edges, rank strictly decreases
/// towards the roots, and the only root is the start node.
spec fn forest_inv(
    tile: &RoutingTile,
    start: int,
    g: Seq<Option<u32>>,
    parent: Seq<Option<u32>>,
    stamp: Seq<nat>,
) -> bool {
    let n = tile.nodes@.len();
    &&& g.len() == n && parent.len() == n && stamp.len() == n
    &&& 0 <= start < n
    &&& g[start] == Some(0u32) && parent[start] is None
    &&& forall|v: int|
        0 <= v < n && #[trigger] parent[v] is Some ==> {
            let p = parent[v].unwrap() as int;
            &&& 0 <= p < n
            &&& has_edge(tile, p, v)
            &&& g[v] is Some && g[p] is Some
            &&& rank_lt(g, stamp, p, v)
            &&& sat_add(g[p].unwrap(), hop_weight(tile, p, v as u32)) <= gval(g, v)
        }
    &&& forall|v: int| 0 <= v < n && #[trigger] g[v] is Some && parent[v] is None ==> v == start
}

/// Each open entry's priority is its cost plus the heuristic of its node.
spec fn open_f_inv(open: Seq<AStarEntry>, h: Seq<u32>) -> bool {
    forall|i: int|
        0 <= i < open.len() ==> #[trigger] open[i].f_cost == sat_add(
            open[i].g_cost,
            h[open[i].node as int],
        )
}

/// Open entries name tile nodes and never undercut the best known cost.
spec fn open_inv(tile: &RoutingTile, g: Seq<Option<u32>>, open: Seq<AStarEntry>) -> bool {
    forall|i: int|
        0 <= i < open.len() ==> {
            &&& #[trigger] open[i].node < tile.nodes@.len()
            &&& g[open[i].node as int] is Some
            &&& gval(g, open[i].node as int) <= open[i].g_cost
        }
}

/// Each node with a known cost is either waiting in the open list at that
/// cost or has been expanded at it (`except` names a node being expanded).
spec fn frontier_inv(
    tile: &RoutingTile,
    g: Seq<Option<u32>>,
    open: Seq<AStarEntry>,
    except: int,
) -> bool {
    forall|v: int|
        0 <= v < tile.nodes@.len() && v != except && #[trigger] g[v] is Some ==> in_open(
            open,
            v,
            g[v].unwrap(),
        ) || closed(tile, g, v, g[v].unwrap())
}

spec fn pot_of(x: Option<u32>) -> nat {
    match x {
        None => 0x1_0000_0000nat,
        Some(c) => c as nat,
    }
}

/// Termination measure: the sum of all best known costs (unknown counts
/// as 2^32); every improvement lowers it.
spec fn pot(g: Seq<Option<u32>>) -> nat
    decreases g.len(),
{
    if g.len() == 0 {
        0
    } else {
        pot(g.drop_last()) + pot_of(g.last())
    }
}

proof fn lemma_pot_update(g: Seq<Option<u32>>, i: int, x: Option<u32>)
    requires
        0 <= i < g.len(),
        pot_of(x) < pot_of(g[i]),
    ensures
        pot(g.update(i, x)) < pot(g),
    decreases g.len(),
{
    let h = g.update(i, x);
    if i == g.len() - 1 {
        assert(h.drop_last() =~= g.drop_last());
    } else {
        assert(h.drop_last() =~= g.drop_last().update(i, x));
        lemma_pot_update(g.drop_last(), i, x);
    }
}

/// Every node reached from the start is known when no known node has an
/// edge to an unknown node.
proof fn lemma_closed_world(
    tile: &RoutingTile,
    g: Seq<Option<u32>>,
    start: int,
    p: Seq<u32>,
)
    requires
        g.len() == tile.nodes@.len(),
        g[start] is Some,
        forall|v: int|
            0 <= v < tile.nodes@.len() && #[trigger] g[v] is Some ==> closed(
                tile,
                g,
                v,
                g[v].unwrap(),
            ),
        is_walk(tile, p),
        p[0] == start,
    ensures
        g[p.last() as int] is Some,
    decreases p.len(),
{
    if p.len() > 1 {
        let q = p.drop_last();
        assert(is_walk(tile, q)) by {
            assert forall|i: int| 0 <= i < q.len() - 1 implies has_edge(
                tile,
                #[trigger] q[i] as int,
                q[i + 1] as int,
            ) by {
                assert(q[i] == p[i] && q[i + 1] == p[i + 1]);
            }
        }
        lemma_closed_world(tile, g, start, q);
        let u = q.last() as int;
        let v = p.last() as int;
        assert(u == p[p.len() - 2] as int);
        assert(has_edge(tile, u, v));
        let k = choose|k: int|
            0 <= k < tile.out_edges(u).len() && #[trigger] tile.out_edges(u)[k].target == v;
        assert(closed(tile, g, u, g[u].unwrap()));
        assert(g[tile.out_edges(u)[k].target as int] is Some);
    }
}

/// Along a walk from the start, as long as no open entry's priority is at
/// most the walk's cost-plus-heuristic so far, the search knows each node
/// of the walk at no more than the walk's cost to it.
proof fn lemma_open_bound_upto(
    tile: &RoutingTile,
    g: Seq<Option<u32>>,
    open: Seq<AStarEntry>,
    h: Seq<u32>,
    end: int,
    q: Seq<u32>,
    i: int,
)
    requires
        g.len() == tile.nodes@.len(),
        frontier_inv(tile, g, open, -1),
        open_f_inv(open, h),
        consistent(tile, h, end),
        is_walk(tile, q),
        g[q[0] as int] == Some(0u32),
        0 <= i < q.len(),
    ensures
        (g[q[i] as int] is Some && gval(g, q[i] as int) <= prefix_cost(tile, q, i)) || exists|m: int|
            0 <= m < open.len() && #[trigger] open[m].f_cost <= sat_add(
                prefix_cost(tile, q, i),
                h[q[i] as int],
            ),
    decreases i,
{
    if i > 0 {
        lemma_open_bound_upto(tile, g, open, h, end, q, i - 1);
        let a = q[i - 1] as int;
        let b = q[i];
        let c = prefix_cost(tile, q, i - 1);
        let es = tile.out_edges(a);
        assert(has_edge(tile, q[i - 1] as int, q[i] as int));
        let k0 = choose|k: int| 0 <= k < es.len() && #[trigger] es[k].target == b as int;
        lemma_cheapest_to(es, b);
        assert(cheapest_to(es, b) is Some);
        let k = choose|k: int|
            0 <= k < es.len() && #[trigger] es[k].target == b && cheapest_to(es, b).unwrap()
                == travel_weight(es[k].distance_cm, es[k].speed_kmh);
        let w = hop_weight(tile, a, b);
        assert(w == travel_weight(es[k].distance_cm, es[k].speed_kmh));
        assert(prefix_cost(tile, q, i) == sat_add(c, w));
        assert(0 <= a < tile.nodes@.len());
        assert(h[a] <= travel_weight(es[k].distance_cm, es[k].speed_kmh) + h[b as int]);
        // the cost-plus-heuristic does not drop along the walk
        assert(sat_add(c, h[a]) <= sat_add(sat_add(c, w), h[b as int]));
        if exists|m: int| 0 <= m < open.len() && #[trigger] open[m].f_cost <= sat_add(c, h[a]) {
            let m = choose|m: int| 0 <= m < open.len() && #[trigger] open[m].f_cost <= sat_add(c, h[a]);
            assert(open[m].f_cost <= sat_add(prefix_cost(tile, q, i), h[b as int]));
        } else {
            assert(g[a] is Some && gval(g, a) <= c);
            if in_open(open, a, g[a].unwrap()) {
                let m = choose|m: int|
                    0 <= m < open.len() && #[trigger] open[m].node == a && open[m].g_cost == g[a].unwrap();
                assert(open[m].f_cost == sat_add(open[m].g_cost, h[a]));
                assert(open[m].f_cost <= sat_add(prefix_cost(tile, q, i), h[b as int]));
            } else {
                assert(closed(tile, g, a, g[a].unwrap()));
                assert(es[k].target < tile.nodes@.len());
                assert(g[es[k].target as int] is Some);
            }
        }
    }
}

/// When the search takes out an entry of least priority for the end node,
/// under a consistent heuristic the end node's known cost is no more than
/// the cost of any walk from the start to it.
proof fn lemma_open_bound(
    tile: &RoutingTile,
    g: Seq<Option<u32>>,
    open: Seq<AStarEntry>,
    h: Seq<u32>,
    end: int,
    q: Seq<u32>,
    e: AStarEntry,
)
    requires
        g.len() == tile.nodes@.len(),
        frontier_inv(tile, g, open, -1),
        open_inv(tile, g, open),
        open_f_inv(open, h),
        consistent(tile, h, end),
        is_walk(tile, q),
        g[q[0] as int] == Some(0u32),
        q.last() == end,
        e.node == end,
        exists|j: int| 0 <= j < open.len() && open[j] == e,
        forall|i: int| 0 <= i < open.len() ==> e.f_cost <= #[trigger] open[i].f_cost,
    ensures
        g[end] is Some && gval(g, end) <= walk_cost(tile, q),
{
    let n = q.len() - 1;
    lemma_open_bound_upto(tile, g, open, h, end, q, n);
    let j = choose|j: int| 0 <= j < open.len() && open[j] == e;
    assert(open[j].node < tile.nodes@.len());
    assert(e.f_cost == sat_add(e.g_cost, h[end]));
    assert(g[end] is Some && gval(g, end) <= e.g_cost);
}

/// The parent links of a walk bound its cost by the known cost of its last
/// node.
proof fn lemma_path_cost(
    tile: &RoutingTile,
    start: int,
    g: Seq<Option<u32>>,
    parent: Seq<Option<u32>>,
    stamp: Seq<nat>,
    p: Seq<u32>,
    i: int,
)
    requires
        forest_inv(tile, start, g, parent, stamp),
        is_walk(tile, p),
        p[0] == start,
        forall|k: int| 0 <= k < p.len() - 1 ==> parent[#[trigger] p[k + 1] as int] == Some(p[k]),
        0 <= i < p.len(),
    ensures
        g[p[i] as int] is Some,
        prefix_cost(tile, p, i) <= gval(g, p[i] as int),
    decreases i,
{
    if i > 0 {
        lemma_path_cost(tile, start, g, parent, stamp, p, i - 1);
        assert(parent[p[i] as int] == Some(p[i - 1]));
        assert(p[i] < tile.nodes@.len());
    }
}

/// Index of an open entry of least f-score.
fn min_f_index(open: &Vec<AStarEntry>) -> (r: usize)
    requires
        open@.len() > 0,
    ensures
        r < open@.len(),
        forall|i: int| 0 <= i < open@.len() ==> open@[r as int].f_cost <= #[trigger] open@[i].f_cost,
{
    let mut best: usize = 0;
    let mut i: usize = 1;
    while i < open.len()
        invariant
            1 <= i <= open@.len(),
            best < i,
            forall|j: int| 0 <= j < i ==> open@[best as int].f_cost <= #[trigger] open@[j].f_cost,
        decreases open@.len() - i,
    {
        if open[i].f_cost < open[best].f_cost {
            best = i;
        }
        i = i + 1;
    }
    best
}

/// Result of a routing query.
#[derive(Debug, Clone)]
pub struct RoutingResult {
    /// Sequence of node references forming the path.
    pub path: Vec<NodeRef>,
    /// The edge walked at each step of the path (`path.len() - 1` edges);
    /// distances and travel times of the route are sums over these.
    pub step_edges: Vec<RoutingEdge>,
    /// Number of open-list entries taken out during the search.
    pub nodes_explored: usize,
}

/// A* router for a single tile.
///
/// For single-tile routing, all nodes are assumed to be in the same tile.
pub struct SingleTileRouter<'a> {
    pub tile: &'a RoutingTile,
}

impl<'a> SingleTileRouter<'a> {
    pub fn new(tile: &'a RoutingTile) -> (r: Self)
        ensures
            r.tile == tile,
    {
        SingleTileRouter { tile }
    }

    /// Walks the parent links back from `end_idx` to the start.
    fn reconstruct_path(
        &self,
        came_from: &Vec<Option<u32>>,
        end_idx: u32,
        Ghost(start): Ghost<int>,
        Ghost(g): Ghost<Seq<Option<u32>>>,
        Ghost(stamp): Ghost<Seq<nat>>,
    ) -> (r: Vec<u32>)
        requires
            forest_inv(self.tile, start, g, came_from@, stamp),
            end_idx < self.tile.nodes@.len(),
            g[end_idx as int] is Some,
        ensures
            is_walk(self.tile, r@),
            r@[0] == start,
            r@.last() == end_idx,
            forall|k: int| 0 <= k < r@.len() - 1 ==> came_from@[#[trigger] r@[k + 1] as int] == Some(r@[k]),
    {
        let ghost tile = self.tile;
        let mut path: Vec<u32> = Vec::new();
        path.push(end_idx);
        let mut current = end_idx;
        loop
            invariant
                forest_inv(tile, start, g, came_from@, stamp),
                tile == self.tile,
                current < tile.nodes@.len(),
                g[current as int] is Some,
                is_walk(tile, path@),
                path@[0] == current,
                path@.last() == end_idx,
                forall|k: int|
                    0 <= k < path@.len() - 1 ==> came_from@[#[trigger] path@[k + 1] as int] == Some(path@[k]),
            ensures
                is_walk(tile, path@),
                path@[0] == start,
                path@.last() == end_idx,
                forall|k: int|
                    0 <= k < path@.len() - 1 ==> came_from@[#[trigger] path@[k + 1] as int] == Some(path@[k]),
            decreases gval(g, current as int), stamp[current as int],
        {
            match came_from[current as usize] {
                Some(prev) => {
                    assert(came_from@[current as int] is Some);
                    let ghost old_path = path@;
                    path.insert(0, prev);
                    proof {
                        assert(path@ =~= seq![prev].add(old_path));
                        assert forall|i: int| 0 <= i < path@.len() implies #[trigger] path@[i]
                            < tile.nodes@.len() by {
                            if i > 0 {
                                assert(path@[i] == old_path[i - 1]);
                            }
                        }
                        assert forall|i: int| 0 <= i < path@.len() - 1 implies has_edge(
                            tile,
                            #[trigger] path@[i] as int,
                            path@[i + 1] as int,
                        ) by {
                            if i > 0 {
                                assert(path@[i] == old_path[i - 1]);
                                assert(path@[i + 1] == old_path[i]);
                            }
                        }
                        assert forall|k: int| 0 <= k < path@.len() - 1 implies came_from@[#[trigger] path@[k
                            + 1] as int] == Some(path@[k]) by {
                            if k > 0 {
                                assert(path@[k] == old_path[k - 1]);
                                assert(path@[k + 1] == old_path[k]);
                            }
                        }
                    }
                    current = prev;
                },
                None => {
                    break;
                },
            }
        }
        path
    }

    /// The edge used at each step of a walk.
    fn walk_step_edges(&self, path: &Vec<u32>) -> (r: Vec<RoutingEdge>)
        requires
            is_walk(self.tile, path@),
            self.tile.edge_blocks_wf(),
        ensures
            r@ == walk_edges(self.tile, path@),
    {
        let mut out: Vec<RoutingEdge> = Vec::new();
        let mut i: usize = 0;
        let m = path.len() - 1;
        while i < m
            invariant
                is_walk(self.tile, path@),
                self.tile.edge_blocks_wf(),
                m == path@.len() - 1,
                i <= m,
                out@.len() == i,
                forall|j: int| 0 <= j < i ==> #[trigger] out@[j] == step_edge(self.tile, path@[j] as int, path@[j + 1]),
            decreases path@.len() - i,
        {
            let u = path[i];
            let v = path[i + 1];
            assert(has_edge(self.tile, u as int, v as int));
            let es = self.tile.edges_for_node(u);
            let ghost oe = self.tile.out_edges(u as int);
            proof {
                lemma_first_edge_to(oe, v);
                let k = choose|k: int| 0 <= k < oe.len() && #[trigger] oe[k].target == v;
                assert(first_edge_to(oe, v) < oe.len());
            }
            let mut k: usize = 0;
            while es[k].target != v
                invariant
                    es@ == oe,
                    k <= first_edge_to(oe, v),
                    first_edge_to(oe, v) < oe.len(),
                    forall|j: int| 0 <= j < first_edge_to(oe, v) ==> oe[j].target != v,
                    oe[first_edge_to(oe, v)].target == v,
                decreases first_edge_to(oe, v) - k,
            {
                k = k + 1;
            }
            out.push(es[k]);
            i = i + 1;
        }
        assert(out@ =~= walk_edges(self.tile, path@));
        out
    }

    /// Finds a path between two nodes of the tile with A*.
    ///
    /// `heuristic[v]` is the estimated cost from node `v` to `end_idx` (the
    /// caller computes it from the node coordinates); it orders the search
    /// and does not change which queries succeed.
    ///
    /// Returns a path exactly when both nodes exist and the end node is
    /// reachable from the start node along the tile's edges. When the
    /// heuristic is consistent (zero at the end, and dropping along no edge
    /// by more than the edge's weight), the path is a shortest one: no walk
    /// from the start to the end costs less.
    #[verifier::rlimit(80)]
    pub fn find_path(&self, start_idx: u32, end_idx: u32, heuristic: &Vec<u32>) -> (r: Option<
        RoutingResult,
    >)
        requires
            self.tile.edge_blocks_wf(),
            heuristic@.len() == self.tile.nodes@.len(),
        ensures
            r is Some <==> (start_idx < self.tile.nodes@.len() && end_idx < self.tile.nodes@.len()
                && reachable(self.tile, start_idx as int, end_idx as int)),
            r matches Some(res) ==> exists|p: Seq<u32>|
                {
                    &&& #[trigger] is_walk(self.tile, p)
                    &&& p[0] == start_idx
                    &&& p.last() == end_idx
                    &&& res.path@ == node_refs(self.tile, p)
                    &&& res.step_edges@ == walk_edges(self.tile, p)
                    &&& consistent(self.tile, heuristic@, end_idx as int) ==> forall|q: Seq<u32>|
                        #[trigger] is_walk(self.tile, q) && q[0] == start_idx && q.last() == end_idx
                            ==> walk_cost(self.tile, p) <= walk_cost(self.tile, q)
                },
            r matches Some(res) ==> res.nodes_explored >= 1,
    {
        let tile = self.tile;
        let n = tile.nodes.len();
        if start_idx as usize >= n || end_idx as usize >= n {
            return None;
        }
        let ghost start = start_idx as int;
        let ghost end = end_idx as int;
        let mut g_costs: Vec<Option<u32>> = Vec::new();
        let mut came_from: Vec<Option<u32>> = Vec::new();
        let mut i: usize = 0;
        while i < n
            invariant
                i <= n,
                g_costs@.len() == i,
                came_from@.len() == i,
                forall|j: int| 0 <= j < i ==> #[trigger] g_costs@[j] is None,
                forall|j: int| 0 <= j < i ==> #[trigger] came_from@[j] is None,
            decreases n - i,
        {
            g_costs.push(None);
            came_from.push(None);
            i = i + 1;
        }
        let ghost mut stamp: Seq<nat> = Seq::new(n as nat, |j: int| 0nat);
        let ghost mut clock: nat = 1;
        g_costs.set(start_idx as usize, Some(0u32));
        let mut open: Vec<AStarEntry> = Vec::new();
        open.push(AStarEntry { node: start_idx, g_cost: 0, f_cost: heuristic[start_idx as usize] });
        let mut nodes_explored: usize = 0;
        proof {
            assert forall|v: int| 0 <= v < n && #[trigger] g_costs@[v] is Some implies in_open(
                open@,
                v,
                g_costs@[v].unwrap(),
            ) || closed(tile, g_costs@, v, g_costs@[v].unwrap()) by {
                assert(v == start);
                assert(open@[0].node == v);
            }
            assert(g_costs@[end] is Some ==> has_entry(open@, end)) by {
                if g_costs@[end] is Some {
                    assert(end == start);
                    assert(open@[0].node == end);
                }
            }
        }
        while open.len() > 0
            invariant
                tile == self.tile,
                tile.edge_blocks_wf(),
                n == tile.nodes@.len(),
                heuristic@.len() == n,
                start == start_idx as int,
                end == end_idx as int,
                end_idx < n,
                forest_inv(tile, start, g_costs@, came_from@, stamp),
                open_inv(tile, g_costs@, open@),
                open_f_inv(open@, heuristic@),
                frontier_inv(tile, g_costs@, open@, -1),
                g_costs@[end] is Some ==> has_entry(open@, end),
                forall|v: int| 0 <= v < n ==> #[trigger] stamp[v] < clock,
            decreases pot(g_costs@), open@.len(),
        {
            let k = min_f_index(&open);
            let ghost open_before = open@;
            let current = open.remove(k);
            let ghost popped = open@;
            if nodes_explored < usize::MAX {
                nodes_explored = nodes_explored + 1;
            }
            let current_idx = current.node;
            assert(open_before[k as int] == current);
            if current_idx == end_idx {
                let path = self.reconstruct_path(
                    &came_from,
                    end_idx,
                    Ghost(start),
                    Ghost(g_costs@),
                    Ghost(stamp),
                );
                let step_edges = self.walk_step_edges(&path);
                let mut refs: Vec<NodeRef> = Vec::new();
                let mut j: usize = 0;
                while j < path.len()
                    invariant
                        j <= path@.len(),
                        refs@.len() == j,
                        forall|q: int| 0 <= q < j ==> #[trigger] refs@[q] == node_refs(tile, path@)[q],
                    decreases path@.len() - j,
                {
                    refs.push(NodeRef::new(tile.level, tile.tile_x, tile.tile_y, path[j]));
                    j = j + 1;
                }
                assert(refs@ =~= node_refs(tile, path@));
                assert(reachable(tile, start, end));
                proof {
                    lemma_path_cost(tile, start, g_costs@, came_from@, stamp, path@, path@.len() - 1);
                    if consistent(tile, heuristic@, end) {
                        assert forall|q: Seq<u32>|
                            #[trigger] is_walk(tile, q) && q[0] == start_idx && q.last()
                                == end_idx implies walk_cost(tile, path@) <= walk_cost(tile, q) by {
                            lemma_open_bound(
                                tile,
                                g_costs@,
                                open_before,
                                heuristic@,
                                end,
                                q,
                                current,
                            );
                        }
                    }
                }
                return Some(RoutingResult { path: refs, step_edges, nodes_explored });
            }
            // Entries other than the removed one stay in the open list.
            proof {
                assert forall|i: int| 0 <= i < popped.len() implies (#[trigger] popped[i]
                    == (if i < k {
                    open_before[i]
                } else {
                    open_before[i + 1]
                })) by {}
                assert(open_inv(tile, g_costs@, popped)) by {
                    assert forall|i: int| 0 <= i < popped.len() implies {
                        &&& #[trigger] popped[i].node < tile.nodes@.len()
                        &&& g_costs@[popped[i].node as int] is Some
                        &&& gval(g_costs@, popped[i].node as int) <= popped[i].g_cost
                    } by {
                        if i < k {
                            assert(popped[i] == open_before[i]);
                        } else {
                            assert(popped[i] == open_before[i + 1]);
                        }
                    }
                }
                assert forall|v: int, c: u32|
                    in_open(open_before, v, c) && !(v == current_idx && c
                        == current.g_cost) implies #[trigger] in_open(popped, v, c) by {
                    let i = choose|i: int|
                        0 <= i < open_before.len() && #[trigger] open_before[i].node == v
                            && open_before[i].g_cost == c;
                    if i < k {
                        assert(popped[i] == open_before[i]);
                    } else {
                        assert(i != k);
                        assert(popped[i - 1] == open_before[i]);
                    }
                }
                assert(g_costs@[end] is Some ==> has_entry(popped, end)) by {
                    if g_costs@[end] is Some {
                        let i = choose|i: int|
                            0 <= i < open_before.len() && #[trigger] open_before[i].node == end;
                        assert(i != k);
                        if i < k {
                            assert(popped[i] == open_before[i]);
                        } else {
                            assert(popped[i - 1] == open_before[i]);
                        }
                    }
                }
            }
            let best_g = match g_costs[current_idx as usize] {
                Some(b) => b,
                None => {
                    assert(false);
                    0
                },
            };
            if current.g_cost > best_g {
                // A better path to this node has been found since.
                proof {
                    assert(frontier_inv(tile, g_costs@, open@, -1)) by {
                        assert forall|v: int|
                            0 <= v < n && v != -1 && #[trigger] g_costs@[v] is Some implies in_open(
                            open@,
                            v,
                            g_costs@[v].unwrap(),
                        ) || closed(tile, g_costs@, v, g_costs@[v].unwrap()) by {
                            if in_open(open_before, v, g_costs@[v].unwrap()) {
                                assert(in_open(popped, v, g_costs@[v].unwrap()));
                            }
                        }
                    }
                }
                continue;
            }
            let cg = current.g_cost;
            assert(cg == best_g);
            let edges = tile.edges_for_node(current_idx);
            let ghost es = tile.out_edges(current_idx as int);
            let ghost pot0 = pot(g_costs@);
            let ghost len0 = open@.len();
            proof {
                assert(frontier_inv(tile, g_costs@, open@, current_idx as int)) by {
                    assert forall|v: int|
                        0 <= v < n && v != current_idx as int && #[trigger] g_costs@[v] is Some implies in_open(
                        open@,
                        v,
                        g_costs@[v].unwrap(),
                    ) || closed(tile, g_costs@, v, g_costs@[v].unwrap()) by {
                        if in_open(open_before, v, g_costs@[v].unwrap()) {
                            assert(in_open(popped, v, g_costs@[v].unwrap()));
                        }
                    }
                }
            }
            let mut j: usize = 0;
            while j < edges.len()
                invariant
                    tile == self.tile,
                    tile.edge_blocks_wf(),
                    n == tile.nodes@.len(),
                    heuristic@.len() == n,
                    start == start_idx as int,
                    end == end_idx as int,
                    end_idx < n,
                    current_idx < n,
                    current_idx != end_idx,
                    edges@ == es,
                    es == tile.out_edges(current_idx as int),
                    j <= es.len(),
                    g_costs@[current_idx as int] == Some(cg),
                    forest_inv(tile, start, g_costs@, came_from@, stamp),
                    open_inv(tile, g_costs@, open@),
                    open_f_inv(open@, heuristic@),
                    frontier_inv(tile, g_costs@, open@, current_idx as int),
                    g_costs@[end] is Some ==> has_entry(open@, end),
                    forall|v: int| 0 <= v < n ==> #[trigger] stamp[v] < clock,
                    forall|q: int|
                        0 <= q < j && es[q].target < n ==> #[trigger] g_costs@[es[q].target as int]
                            is Some && gval(g_costs@, es[q].target as int) <= sat_add(
                            cg,
                            travel_weight(es[q].distance_cm, es[q].speed_kmh),
                        ),
                    pot(g_costs@) < pot0 || (pot(g_costs@) == pot0 && open@.len() == len0),
                decreases es.len() - j,
            {
                let edge = edges[j];
                let neighbor_idx = edge.target;
                if neighbor_idx as usize >= n {
                    j = j + 1;
                    continue;
                }
                let edge_cost = edge.weight();
                let tentative_g = cg.saturating_add(edge_cost);
                let is_better = match g_costs[neighbor_idx as usize] {
                    Some(existing_g) => tentative_g < existing_g,
                    None => true,
                };
                if is_better {
                    let ghost v = neighbor_idx as int;
                    let ghost u = current_idx as int;
                    assert(v != u);
                    let ghost g_old = g_costs@;
                    let ghost p_old = came_from@;
                    let ghost s_old = stamp;
                    let ghost open_old = open@;
                    proof {
                        lemma_pot_update(g_old, v, Some(tentative_g));
                    }
                    came_from.set(neighbor_idx as usize, Some(current_idx));
                    g_costs.set(neighbor_idx as usize, Some(tentative_g));
                    proof {
                        stamp = stamp.update(v, clock);
                        clock = clock + 1;
                    }
                    let h = heuristic[neighbor_idx as usize];
                    let f_cost = tentative_g.saturating_add(h);
                    let entry = AStarEntry { node: neighbor_idx, g_cost: tentative_g, f_cost };
                    open.push(entry);
                    proof {
                        let g_new = g_costs@;
                        assert(has_edge(tile, u, v)) by {
                            assert(es[j as int].target == v);
                        }
                        // the parent forest
                        assert forall|w: int| 0 <= w < n && #[trigger] came_from@[w] is Some implies {
                            let p = came_from@[w].unwrap() as int;
                            &&& 0 <= p < n
                            &&& has_edge(tile, p, w)
                            &&& g_new[w] is Some && g_new[p] is Some
                            &&& rank_lt(g_new, stamp, p, w)
                            &&& sat_add(g_new[p].unwrap(), hop_weight(tile, p, w as u32)) <= gval(
                                g_new,
                                w,
                            )
                        } by {
                            if w != v {
                                assert(p_old[w] is Some);
                                assert(came_from@[w] == p_old[w]);
                            } else {
                                lemma_cheapest_to(es, v as u32);
                                assert(es[j as int].target == v);
                            }
                        }
                        assert forall|w: int|
                            0 <= w < n && #[trigger] g_new[w] is Some && came_from@[w]
                                is None implies w == start by {
                            if w != v {
                                assert(g_old[w] is Some);
                            }
                        }
                        // the open list
                        assert forall|i: int| 0 <= i < open@.len() implies {
                            &&& #[trigger] open@[i].node < tile.nodes@.len()
                            &&& g_new[open@[i].node as int] is Some
                            &&& gval(g_new, open@[i].node as int) <= open@[i].g_cost
                        } by {
                            if i < open_old.len() {
                                assert(open@[i] == open_old[i]);
                            }
                        }
                        // the frontier
                        assert forall|w: int|
                            0 <= w < n && w != u && #[trigger] g_new[w] is Some implies in_open(
                            open@,
                            w,
                            g_new[w].unwrap(),
                        ) || closed(tile, g_new, w, g_new[w].unwrap()) by {
                            if w == v {
                                assert(open@[open_old.len() as int] == entry);
                                assert(open@[open_old.len() as int].node == w);
                                assert(g_new[w].unwrap() == tentative_g);
                                assert(in_open(open@, w, g_new[w].unwrap()));
                            } else {
                                assert(g_old[w] is Some);
                                if in_open(open_old, w, g_old[w].unwrap()) {
                                    let i = choose|i: int|
                                        0 <= i < open_old.len() && #[trigger] open_old[i].node == w
                                            && open_old[i].g_cost == g_old[w].unwrap();
                                    assert(open@[i] == open_old[i]);
                                    assert(open@[i].node == w);
                                    assert(g_new[w] == g_old[w]);
                                    assert(in_open(open@, w, g_new[w].unwrap()));
                                } else {
                                    assert(g_new[w] == g_old[w]);
                                    assert(closed(tile, g_old, w, g_old[w].unwrap()));
                                    assert forall|q: int|
                                        0 <= q < tile.out_edges(w).len()
                                            && tile.out_edges(w)[q].target
                                            < tile.nodes@.len() implies #[trigger] g_new[tile.out_edges(
                                    w)[q].target as int] is Some && gval(
                                        g_new,
                                        tile.out_edges(w)[q].target as int,
                                    ) <= sat_add(
                                        g_new[w].unwrap(),
                                        travel_weight(
                                            tile.out_edges(w)[q].distance_cm,
                                            tile.out_edges(w)[q].speed_kmh,
                                        ),
                                    ) by {
                                        assert(g_old[tile.out_edges(w)[q].target as int] is Some);
                                    }
                                }
                            }
                        }
                        assert(g_new[end] is Some ==> has_entry(open@, end)) by {
                            if g_new[end] is Some {
                                if v == end {
                                    assert(open@[open_old.len() as int].node == end);
                                } else {
                                    let i = choose|i: int|
                                        0 <= i < open_old.len() && #[trigger] open_old[i].node
                                            == end;
                                    assert(open@[i] == open_old[i]);
                                }
                            }
                        }
                        assert forall|q: int|
                            0 <= q < j + 1 && es[q].target < n implies #[trigger] g_new[es[q].target as int]
                                is Some && gval(g_new, es[q].target as int) <= sat_add(
                                cg,
                                travel_weight(es[q].distance_cm, es[q].speed_kmh),
                            ) by {
                            if q < j {
                                assert(g_old[es[q].target as int] is Some);
                            }
                        }
                    }
                } else {
                    proof {
                        assert forall|q: int|
                            0 <= q < j + 1 && es[q].target < n implies #[trigger] g_costs@[es[q].target as int]
                                is Some && gval(g_costs@, es[q].target as int) <= sat_add(
                                cg,
                                travel_weight(es[q].distance_cm, es[q].speed_kmh),
                            ) by {}
                    }
                }
                j = j + 1;
            }
            proof {
                assert(closed(tile, g_costs@, current_idx as int, cg));
                assert(frontier_inv(tile, g_costs@, open@, -1));
            }
        }
        proof {
            assert(g_costs@[end] is None) by {
                if g_costs@[end] is Some {
                    assert(has_entry(open@, end));
                }
            }
            assert forall|p: Seq<u32>| #[trigger] is_walk(tile, p) && p[0] == start implies p.last()
                != end by {
                assert forall|v: int|
                    0 <= v < n && #[trigger] g_costs@[v] is Some implies closed(
                    tile,
                    g_costs@,
                    v,
                    g_costs@[v].unwrap(),
                ) by {
                    assert(!in_open(open@, v, g_costs@[v].unwrap()));
                }
                lemma_closed_world(tile, g_costs@, start, p);
            }
        }
        None
    }
}

} // verus!
