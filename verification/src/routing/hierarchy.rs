//! Node identity and level selection for routing across tiles and levels.
//!
//! - Level 0 (Highway): always in memory, for the long-distance backbone
//! - Level 1 (Arterial): cached, for regional routing
//! - Level 2 (Local): on demand, for local streets
use vstd::prelude::*;

use crate::routing::types::HierarchyLevel;

verus! {

/// A node identifier that spans multiple tiles.
///
/// The same physical node may be stored in several tiles (when edges cross
/// tile boundaries), so identity is by level and coordinates: the same
/// physical location always has the same identity regardless of which tile
/// it is stored in.
#[derive(Debug, Clone, Copy)]
pub struct GlobalNodeId {
    pub level: HierarchyLevel,
    pub tile_x: i32,
    pub tile_y: i32,
    pub node_idx: u32,
    /// Node's latitude in microdegrees (used for identity).
    pub lat_micro: i32,
    /// Node's longitude in microdegrees (used for identity).
    pub lon_micro: i32,
}

/// Two node ids denote the same physical node at the same level.
pub open spec fn same_node(a: GlobalNodeId, b: GlobalNodeId) -> bool {
    a.level == b.level && a.lat_micro == b.lat_micro && a.lon_micro == b.lon_micro
}

impl GlobalNodeId {
    pub fn new(level: HierarchyLevel, tile_x: i32, tile_y: i32, node_idx: u32) -> (r: Self)
        ensures
            r.level == level,
            r.tile_x == tile_x,
            r.tile_y == tile_y,
            r.node_idx == node_idx,
            r.lat_micro == 0,
            r.lon_micro == 0,
    {
        GlobalNodeId { level, tile_x, tile_y, node_idx, lat_micro: 0, lon_micro: 0 }
    }

    pub fn with_coords(
        level: HierarchyLevel,
        tile_x: i32,
        tile_y: i32,
        node_idx: u32,
        lat_micro: i32,
        lon_micro: i32,
    ) -> (r: Self)
        ensures
            r.level == level,
            r.tile_x == tile_x,
            r.tile_y == tile_y,
            r.node_idx == node_idx,
            r.lat_micro == lat_micro,
            r.lon_micro == lon_micro,
    {
        GlobalNodeId { level, tile_x, tile_y, node_idx, lat_micro, lon_micro }
    }

    /// The identity of the node: its level and coordinates; ids are equal
    /// exactly when their keys are.
    pub fn key(&self) -> (r: (HierarchyLevel, i32, i32))
        ensures
            r == (self.level, self.lat_micro, self.lon_micro),
    {
        (self.level, self.lat_micro, self.lon_micro)
    }
}

/// Equality based on coordinates, not tile indices.
impl PartialEq for GlobalNodeId {
    fn eq(&self, other: &Self) -> (r: bool) {
        self.level == other.level && self.lat_micro == other.lat_micro && self.lon_micro
            == other.lon_micro
    }
}

impl vstd::std_specs::cmp::PartialEqSpecImpl for GlobalNodeId {
    open spec fn obeys_eq_spec() -> bool {
        true
    }

    open spec fn eq_spec(&self, other: &GlobalNodeId) -> bool {
        same_node(*self, *other)
    }
}

impl Eq for GlobalNodeId {

}

/// Node identity is an equivalence relation that ignores the tile and the
/// index within it: the same location in two tiles is one node.
pub proof fn lemma_node_identity(a: GlobalNodeId, b: GlobalNodeId, c: GlobalNodeId)
    ensures
        same_node(a, a),
        same_node(a, b) ==> same_node(b, a),
        same_node(a, b) && same_node(b, c) ==> same_node(a, c),
        same_node(a, b) <==> (a.level, a.lat_micro, a.lon_micro) == (b.level, b.lat_micro, b.lon_micro),
        (a.level == b.level && a.lat_micro == b.lat_micro && a.lon_micro == b.lon_micro) ==> same_node(a, b),
{
}

/// Hierarchy level chosen for a route of the given straight-line length.
pub open spec fn level_for_distance(distance_m: int) -> HierarchyLevel {
    if distance_m < 5_000 {
        HierarchyLevel::Local
    } else if distance_m < 50_000 {
        HierarchyLevel::Arterial
    } else {
        HierarchyLevel::Highway
    }
}

/// The levels tried, in order, for a route that starts at `level`: from it
/// up to the highway level.
pub open spec fn levels_from(level: HierarchyLevel) -> Seq<HierarchyLevel> {
    match level {
        HierarchyLevel::Local => seq![
            HierarchyLevel::Local,
            HierarchyLevel::Arterial,
            HierarchyLevel::Highway,
        ],
        HierarchyLevel::Arterial => seq![HierarchyLevel::Arterial, HierarchyLevel::Highway],
        HierarchyLevel::Highway => seq![HierarchyLevel::Highway],
    }
}

/// Select the hierarchy level from the route's straight-line distance in
/// whole meters (the fractional part does not change the choice):
/// under 5 km local, under 50 km arterial, otherwise highway.
pub fn select_level(distance_m: u64) -> (r: HierarchyLevel)
    ensures
        r == level_for_distance(distance_m as int),
{
    if distance_m < 5_000 {
        HierarchyLevel::Local
    } else if distance_m < 50_000 {
        HierarchyLevel::Arterial
    } else {
        HierarchyLevel::Highway
    }
}

/// The levels to try, in order, starting from the selected one.
pub fn levels_to_try(initial: HierarchyLevel) -> (r: Vec<HierarchyLevel>)
    ensures
        r@ == levels_from(initial),
{
    let mut v: Vec<HierarchyLevel> = Vec::new();
    match initial {
        HierarchyLevel::Local => {
            v.push(HierarchyLevel::Local);
            v.push(HierarchyLevel::Arterial);
            v.push(HierarchyLevel::Highway);
        },
        HierarchyLevel::Arterial => {
            v.push(HierarchyLevel::Arterial);
            v.push(HierarchyLevel::Highway);
        },
        HierarchyLevel::Highway => {
            v.push(HierarchyLevel::Highway);
        },
    }
    assert(v@ =~= levels_from(initial));
    v
}

/// The path of a route that leaves local roads for a higher level: the
/// local start node, the path on the higher level, then the local end node
/// unless it is the location where the higher-level path ends.
pub open spec fn connected_path(
    local_start: GlobalNodeId,
    upper: Seq<GlobalNodeId>,
    upper_end: GlobalNodeId,
    local_end: GlobalNodeId,
) -> Seq<GlobalNodeId> {
    let core = seq![local_start] + upper;
    if local_end.lat_micro != upper_end.lat_micro || local_end.lon_micro != upper_end.lon_micro {
        core.push(local_end)
    } else {
        core
    }
}

/// Joins a higher-level route to the local roads at both ends; returns the
/// combined path and the levels used (local, then the higher level).
pub fn connect_to_local(
    local_start: GlobalNodeId,
    upper_path: &Vec<GlobalNodeId>,
    upper_end: GlobalNodeId,
    local_end: GlobalNodeId,
    upper_level: HierarchyLevel,
) -> (r: (Vec<GlobalNodeId>, Vec<HierarchyLevel>))
    ensures
        r.0@ == connected_path(local_start, upper_path@, upper_end, local_end),
        r.0@.len() >= 1,
        r.0@[0] == local_start,
        r.0@.subrange(1, upper_path@.len() as int + 1) == upper_path@,
        (local_end.lat_micro != upper_end.lat_micro || local_end.lon_micro != upper_end.lon_micro)
            ==> r.0@.len() == upper_path@.len() + 2 && r.0@.last() == local_end,
        (local_end.lat_micro == upper_end.lat_micro && local_end.lon_micro == upper_end.lon_micro)
            ==> r.0@.len() == upper_path@.len() + 1,
        r.1@ == (if upper_level == HierarchyLevel::Local {
            seq![HierarchyLevel::Local]
        } else {
            seq![HierarchyLevel::Local, upper_level]
        }),
{
    let mut path: Vec<GlobalNodeId> = Vec::new();
    path.push(local_start);
    let mut i: usize = 0;
    while i < upper_path.len()
        invariant
            i <= upper_path@.len(),
            path@ == seq![local_start] + upper_path@.subrange(0, i as int),
        decreases upper_path@.len() - i,
    {
        path.push(upper_path[i]);
        i = i + 1;
        assert(path@ =~= seq![local_start] + upper_path@.subrange(0, i as int));
    }
    assert(upper_path@.subrange(0, i as int) =~= upper_path@);
    let mut levels: Vec<HierarchyLevel> = Vec::new();
    levels.push(HierarchyLevel::Local);
    if upper_level != HierarchyLevel::Local {
        levels.push(upper_level);
    }
    if local_end.lat_micro != upper_end.lat_micro || local_end.lon_micro != upper_end.lon_micro {
        path.push(local_end);
    }
    assert(levels@ =~= (if upper_level == HierarchyLevel::Local {
        seq![HierarchyLevel::Local]
    } else {
        seq![HierarchyLevel::Local, upper_level]
    }));
    (path, levels)
}

/// The levels a node may switch to at the same location: local and
/// highway to arterial, arterial to both.
pub open spec fn transition_levels(level: HierarchyLevel) -> Seq<HierarchyLevel> {
    match level {
        HierarchyLevel::Local => seq![HierarchyLevel::Arterial],
        HierarchyLevel::Arterial => seq![HierarchyLevel::Local, HierarchyLevel::Highway],
        HierarchyLevel::Highway => seq![HierarchyLevel::Arterial],
    }
}

/// The levels reachable by a zero-cost level transition from `level`.
pub fn other_levels(level: HierarchyLevel) -> (r: Vec<HierarchyLevel>)
    ensures
        r@ == transition_levels(level),
        forall|i: int| 0 <= i < r@.len() ==> r@[i] != level,
{
    let mut v: Vec<HierarchyLevel> = Vec::new();
    match level {
        HierarchyLevel::Local => {
            v.push(HierarchyLevel::Arterial);
        },
        HierarchyLevel::Arterial => {
            v.push(HierarchyLevel::Local);
            v.push(HierarchyLevel::Highway);
        },
        HierarchyLevel::Highway => {
            v.push(HierarchyLevel::Arterial);
        },
    }
    assert(v@ =~= transition_levels(level));
    v
}

/// Level transitions are symmetric: a level can be left for another
/// exactly when the other can be left for it.
pub proof fn lemma_transitions_symmetric(a: HierarchyLevel, b: HierarchyLevel)
    ensures
        transition_levels(a).contains(b) <==> transition_levels(b).contains(a),
{
    match a {
        HierarchyLevel::Local => {
            assert(transition_levels(a)[0] == HierarchyLevel::Arterial);
        },
        HierarchyLevel::Arterial => {
            assert(transition_levels(a)[0] == HierarchyLevel::Local);
            assert(transition_levels(a)[1] == HierarchyLevel::Highway);
        },
        HierarchyLevel::Highway => {
            assert(transition_levels(a)[0] == HierarchyLevel::Arterial);
        },
    }
    match b {
        HierarchyLevel::Local => {
            assert(transition_levels(b)[0] == HierarchyLevel::Arterial);
        },
        HierarchyLevel::Arterial => {
            assert(transition_levels(b)[0] == HierarchyLevel::Local);
            assert(transition_levels(b)[1] == HierarchyLevel::Highway);
        },
        HierarchyLevel::Highway => {
            assert(transition_levels(b)[0] == HierarchyLevel::Arterial);
        },
    }
}

} // verus!
