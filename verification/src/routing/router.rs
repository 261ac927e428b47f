//! Route assembly: turn instructions and road names along a found path.
use vstd::prelude::*;

use crate::routing::algorithm::{first_edge_to, NodeRef};
use crate::routing::types::RoutingTile;

verus! {

/// Turn instruction for navigation.
#[derive(Debug, Clone, Copy, PartialEq, Eq, Structural)]
pub enum TurnInstruction {
    /// Start of the route.
    Start,
    /// Continue straight.
    Continue,
    /// Turn left.
    TurnLeft,
    /// Turn right.
    TurnRight,
    /// Slight left.
    SlightLeft,
    /// Slight right.
    SlightRight,
    /// Sharp left.
    SharpLeft,
    /// Sharp right.
    SharpRight,
    /// U-turn.
    UTurn,
    /// Arrive at destination.
    Arrive,
}

/// Instruction of the `i`-th segment of a path with `path_len` points:
/// start on the first, arrive on the last, continue in between.
pub open spec fn segment_instruction(i: int, path_len: int) -> TurnInstruction {
    if i == 0 {
        TurnInstruction::Start
    } else if i == path_len - 2 {
        TurnInstruction::Arrive
    } else {
        TurnInstruction::Continue
    }
}

/// The name of a tile's road name id (0 = unnamed).
pub open spec fn tile_name(tile: &RoutingTile, name_id: u8) -> Option<Seq<char>> {
    if name_id > 0 && name_id - 1 < tile.names@.len() {
        Some(tile.names@[name_id - 1]@)
    } else {
        None
    }
}

/// The name of the road from `from_idx` to `to_idx`: that of the first edge
/// between them, if there is one.
pub open spec fn road_name_between(tile: &RoutingTile, from_idx: u32, to_idx: u32) -> Option<
    Seq<char>,
> {
    let es = tile.out_edges(from_idx as int);
    let k = first_edge_to(es, to_idx);
    if k < es.len() {
        tile_name(tile, es[k].name_id)
    } else {
        None
    }
}

/// A segment of a route, between two consecutive path points.
#[derive(Debug, Clone)]
pub struct SegmentInfo {
    /// Start index into the path.
    pub start_idx: usize,
    /// End index into the path.
    pub end_idx: usize,
    /// Road name (if available).
    pub road_name: Option<String>,
    /// Turn instruction at the start of this segment.
    pub instruction: TurnInstruction,
}

/// Get the road name for an edge in a tile.
pub fn get_road_name_from_tile(tile: &RoutingTile, from_idx: u32, to_idx: u32) -> (r: Option<
    String,
>)
    requires
        from_idx < tile.nodes@.len() ==> tile.nodes@[from_idx as int].first_edge
            <= tile.edges@.len(),
    ensures
        match r {
            Some(s) => road_name_between(tile, from_idx, to_idx) == Some(s@),
            None => road_name_between(tile, from_idx, to_idx) is None,
        },
{
    let es = tile.edges_for_node(from_idx);
    let mut k: usize = 0;
    while k < es.len()
        invariant
            es@ == tile.out_edges(from_idx as int),
            k <= es@.len(),
            forall|j: int| 0 <= j < k ==> es@[j].target != to_idx,
        decreases es@.len() - k,
    {
        if es[k].target == to_idx {
            proof {
                lemma_first_edge_to_exact(es@, to_idx, k as int);
            }
            return match tile.name(es[k].name_id) {
                Some(s) => {
                    let i = (es[k].name_id - 1) as usize;
                    Some(tile.names[i].clone())
                },
                None => None,
            };
        }
        k = k + 1;
    }
    proof {
        lemma_first_edge_to_exact(es@, to_idx, es@.len() as int);
    }
    None
}

pub proof fn lemma_first_edge_to_exact(es: Seq<crate::routing::types::RoutingEdge>, v: u32, k: int)
    requires
        0 <= k <= es.len(),
        forall|j: int| 0 <= j < k ==> es[j].target != v,
        k < es.len() ==> es[k].target == v,
    ensures
        first_edge_to(es, v) == k,
    decreases es.len(),
{
    if es.len() > 0 && k > 0 {
        assert forall|j: int| 0 <= j < k - 1 implies es.drop_first()[j].target != v by {
            assert(es.drop_first()[j] == es[j + 1]);
        }
        lemma_first_edge_to_exact(es.drop_first(), v, k - 1);
    }
}

/// Segment `seg` is the `i`-th of a path with `path_len` points.
pub open spec fn segment_at(seg: SegmentInfo, i: int, name: Option<String>, path_len: int) -> bool {
    &&& seg.start_idx == i
    &&& seg.end_idx == i + 1
    &&& seg.road_name == name
    &&& seg.instruction == segment_instruction(i, path_len)
}

/// The segments of a path with `path_len` points and one road name per
/// step: segment `i` joins points `i` and `i + 1`.
pub fn build_segments(path_len: usize, names: &Vec<Option<String>>) -> (r: Vec<SegmentInfo>)
    requires
        names@.len() + 1 == path_len,
    ensures
        r@.len() == names@.len(),
        forall|i: int| 0 <= i < r@.len() ==> segment_at(#[trigger] r@[i], i, names@[i], path_len as int),
{
    let mut out: Vec<SegmentInfo> = Vec::new();
    let mut i: usize = 0;
    while i < names.len()
        invariant
            names@.len() + 1 == path_len,
            i <= names@.len(),
            out@.len() == i,
            forall|j: int| 0 <= j < i ==> segment_at(#[trigger] out@[j], j, names@[j], path_len as int),
        decreases names@.len() - i,
    {
        let instruction = if i == 0 {
            TurnInstruction::Start
        } else if i == path_len - 2 {
            TurnInstruction::Arrive
        } else {
            TurnInstruction::Continue
        };
        let name = match &names[i] {
            Some(s) => Some(s.clone()),
            None => None,
        };
        out.push(SegmentInfo { start_idx: i, end_idx: i + 1, road_name: name, instruction });
        i = i + 1;
    }
    out
}

/// The road name of each step of a path through one tile: step `k` goes
/// from `path[k]` to `path[k + 1]`.
pub fn path_road_names(tile: &RoutingTile, path: &Vec<NodeRef>) -> (r: Vec<Option<String>>)
    requires
        tile.edge_blocks_wf(),
        forall|k: int| 0 <= k < path@.len() ==> (#[trigger] path@[k]).node_idx < tile.nodes@.len(),
    ensures
        path@.len() >= 1 ==> r@.len() == path@.len() - 1,
        path@.len() == 0 ==> r@.len() == 0,
        forall|k: int|
            0 <= k < r@.len() ==> match #[trigger] r@[k] {
                Some(s) => road_name_between(tile, path@[k].node_idx, path@[k + 1].node_idx) == Some(
                    s@,
                ),
                None => road_name_between(tile, path@[k].node_idx, path@[k + 1].node_idx) is None,
            },
{
    let mut names: Vec<Option<String>> = Vec::new();
    let mut i: usize = 1;
    while i < path.len()
        invariant
            tile.edge_blocks_wf(),
            forall|k: int| 0 <= k < path@.len() ==> (#[trigger] path@[k]).node_idx < tile.nodes@.len(),
            1 <= i,
            path@.len() >= 1 ==> i <= path@.len(),
            path@.len() >= 1 ==> names@.len() == i - 1,
            path@.len() == 0 ==> names@.len() == 0,
            forall|k: int|
                0 <= k < names@.len() ==> match #[trigger] names@[k] {
                    Some(s) => road_name_between(tile, path@[k].node_idx, path@[k + 1].node_idx)
                        == Some(s@),
                    None => road_name_between(tile, path@[k].node_idx, path@[k + 1].node_idx) is None,
                },
        decreases path@.len() - i,
    {
        let from = path[i - 1].node_idx;
        let to = path[i].node_idx;
        let name = get_road_name_from_tile(tile, from, to);
        names.push(name);
        i = i + 1;
    }
    names
}

} // verus!
