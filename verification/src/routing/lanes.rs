//! Lane guidance at junctions: which lanes suit the next maneuver.
use vstd::prelude::*;

use crate::routing::turn::TurnType;

verus! {

/// Turn direction painted on a lane.
#[derive(Debug, Clone, Copy, PartialEq, Eq, Structural)]
pub enum LaneTurn {
    /// No turn marking.
    Unmarked,
    Through,
    Left,
    SlightLeft,
    Right,
    SlightRight,
    UTurn,
}

/// Information about a single lane.
#[derive(Debug, Clone, Copy)]
pub struct LaneInfo {
    /// Turn direction for this lane.
    pub turn: LaneTurn,
    /// Whether this lane is recommended for the route.
    pub is_recommended: bool,
}

/// Lane guidance information for a junction display.
#[derive(Debug, Clone)]
pub struct LaneGuidance {
    /// Total number of lanes.
    pub total_lanes: u8,
    /// Information for each lane.
    pub lanes: Vec<LaneInfo>,
    /// Recommended lane index (0-indexed).
    pub recommended_lane: u8,
    /// Destination sign text (if available).
    pub destination: Option<String>,
}

/// The lane markings that suit a maneuver.
pub open spec fn suitable_turns(turn: TurnType) -> Seq<LaneTurn> {
    match turn {
        TurnType::Left | TurnType::SharpLeft => seq![LaneTurn::Left, LaneTurn::SlightLeft],
        TurnType::SlightLeft => seq![LaneTurn::SlightLeft, LaneTurn::Left, LaneTurn::Through],
        TurnType::Right | TurnType::SharpRight => seq![LaneTurn::Right, LaneTurn::SlightRight],
        TurnType::SlightRight => seq![LaneTurn::SlightRight, LaneTurn::Right, LaneTurn::Through],
        TurnType::UTurn => seq![LaneTurn::UTurn, LaneTurn::Left],
        _ => seq![LaneTurn::Through, LaneTurn::Unmarked],
    }
}

/// The maneuver turns to the right.
pub open spec fn turns_right(t: TurnType) -> bool {
    t == TurnType::SlightRight || t == TurnType::Right || t == TurnType::SharpRight
}

/// The maneuver turns to the left (a U-turn included).
pub open spec fn turns_left(t: TurnType) -> bool {
    t == TurnType::SlightLeft || t == TurnType::Left || t == TurnType::SharpLeft || t
        == TurnType::UTurn
}

/// The lane is marked for the right.
pub open spec fn marked_right(l: LaneTurn) -> bool {
    l == LaneTurn::Right || l == LaneTurn::SlightRight
}

/// The lane is marked for the left (a U-turn included).
pub open spec fn marked_left(l: LaneTurn) -> bool {
    l == LaneTurn::Left || l == LaneTurn::SlightLeft || l == LaneTurn::UTurn
}

/// The marking painted for exactly this maneuver.
pub open spec fn own_marking(t: TurnType) -> LaneTurn {
    match t {
        TurnType::Left | TurnType::SharpLeft => LaneTurn::Left,
        TurnType::SlightLeft => LaneTurn::SlightLeft,
        TurnType::Right | TurnType::SharpRight => LaneTurn::Right,
        TurnType::SlightRight => LaneTurn::SlightRight,
        TurnType::UTurn => LaneTurn::UTurn,
        _ => LaneTurn::Through,
    }
}

/// The lane-direction law: a lane suits a maneuver when it carries the
/// maneuver's own marking; a lane marked for the other side never suits
/// a turn; and a right (left) or sharp right (left) turn is suited only by
/// lanes marked right or slight right (left or slight left).
pub proof fn lemma_lane_directions(t: TurnType, l: LaneTurn)
    ensures
        l == own_marking(t) ==> suitable_turns(t).contains(l),
        turns_right(t) && suitable_turns(t).contains(l) ==> !marked_left(l),
        turns_left(t) && suitable_turns(t).contains(l) ==> !marked_right(l),
        (t == TurnType::Right || t == TurnType::SharpRight) && suitable_turns(t).contains(l)
            ==> marked_right(l),
        (t == TurnType::Left || t == TurnType::SharpLeft) && suitable_turns(t).contains(l) ==> (l
            == LaneTurn::Left || l == LaneTurn::SlightLeft),
{
    let s = suitable_turns(t);
    if l == own_marking(t) {
        assert(s[0] == l);
    }
    if s.contains(l) {
        let i = choose|i: int| 0 <= i < s.len() && s[i] == l;
        assert(0 <= i < s.len());
    }
}

/// Whether a lane marking suits a maneuver.
fn suits(lane: LaneTurn, turn: TurnType) -> (r: bool)
    ensures
        r == suitable_turns(turn).contains(lane),
        lane == own_marking(turn) ==> r,
        turns_right(turn) && r ==> !marked_left(lane),
        turns_left(turn) && r ==> !marked_right(lane),
        (turn == TurnType::Right || turn == TurnType::SharpRight) && r ==> marked_right(lane),
        (turn == TurnType::Left || turn == TurnType::SharpLeft) && r ==> (lane == LaneTurn::Left
            || lane == LaneTurn::SlightLeft),
{
    proof {
        lemma_lane_directions(turn, lane);
    }
    let r = match turn {
        TurnType::Left | TurnType::SharpLeft => lane == LaneTurn::Left || lane == LaneTurn::SlightLeft,
        TurnType::SlightLeft => lane == LaneTurn::SlightLeft || lane == LaneTurn::Left || lane
            == LaneTurn::Through,
        TurnType::Right | TurnType::SharpRight => lane == LaneTurn::Right || lane
            == LaneTurn::SlightRight,
        TurnType::SlightRight => lane == LaneTurn::SlightRight || lane == LaneTurn::Right || lane
            == LaneTurn::Through,
        TurnType::UTurn => lane == LaneTurn::UTurn || lane == LaneTurn::Left,
        _ => lane == LaneTurn::Through || lane == LaneTurn::Unmarked,
    };
    proof {
        let s = suitable_turns(turn);
        if r {
            assert(s.contains(lane)) by {
                if s[0] == lane {
                } else if s[1] == lane {
                } else {
                    assert(s[2] == lane);
                }
            }
        } else {
            assert(!s.contains(lane)) by {
                if s.contains(lane) {
                    let i = choose|i: int| 0 <= i < s.len() && s[i] == lane;
                    assert(0 <= i < s.len());
                }
            }
        }
    }
    r
}

/// Marks the lanes whose marking suits `turn` as recommended, and makes
/// the first of them (its index as a byte) the recommended lane; with no
/// suitable lane the recommended lane is left as it was.
pub fn compute_recommended_lanes(guidance: &mut LaneGuidance, turn: TurnType)
    ensures
        final(guidance).total_lanes == old(guidance).total_lanes,
        final(guidance).destination == old(guidance).destination,
        final(guidance).lanes@.len() == old(guidance).lanes@.len(),
        forall|i: int|
            0 <= i < final(guidance).lanes@.len() ==> (#[trigger] final(guidance).lanes@[i]).turn
                == old(guidance).lanes@[i].turn && final(guidance).lanes@[i].is_recommended
                == suitable_turns(turn).contains(old(guidance).lanes@[i].turn),
        (exists|i: int|
            0 <= i < old(guidance).lanes@.len() && suitable_turns(turn).contains(
                #[trigger] old(guidance).lanes@[i].turn,
            )) ==> exists|i: int|
            0 <= i < old(guidance).lanes@.len() && suitable_turns(turn).contains(
                #[trigger] old(guidance).lanes@[i].turn,
            ) && (forall|j: int|
                0 <= j < i ==> !suitable_turns(turn).contains(old(guidance).lanes@[j].turn))
                && final(guidance).recommended_lane == i as u8,
        (forall|i: int|
            0 <= i < old(guidance).lanes@.len() ==> !suitable_turns(turn).contains(
                #[trigger] old(guidance).lanes@[i].turn,
            )) ==> final(guidance).recommended_lane == old(guidance).recommended_lane,
        forall|i: int|
            0 <= i < final(guidance).lanes@.len() ==> {
                let l = old(guidance).lanes@[i].turn;
                let rec = (#[trigger] final(guidance).lanes@[i]).is_recommended;
                &&& l == own_marking(turn) ==> rec
                &&& turns_right(turn) && rec ==> !marked_left(l)
                &&& turns_left(turn) && rec ==> !marked_right(l)
                &&& (turn == TurnType::Right || turn == TurnType::SharpRight) && rec ==> marked_right(l)
                &&& (turn == TurnType::Left || turn == TurnType::SharpLeft) && rec ==> (l
                    == LaneTurn::Left || l == LaneTurn::SlightLeft)
            },
{
    proof {
        assert forall|l: LaneTurn| #![auto] true implies {
            &&& l == own_marking(turn) ==> suitable_turns(turn).contains(l)
            &&& turns_right(turn) && suitable_turns(turn).contains(l) ==> !marked_left(l)
            &&& turns_left(turn) && suitable_turns(turn).contains(l) ==> !marked_right(l)
            &&& (turn == TurnType::Right || turn == TurnType::SharpRight) && suitable_turns(
                turn,
            ).contains(l) ==> marked_right(l)
            &&& (turn == TurnType::Left || turn == TurnType::SharpLeft) && suitable_turns(
                turn,
            ).contains(l) ==> (l == LaneTurn::Left || l == LaneTurn::SlightLeft)
        } by {
            lemma_lane_directions(turn, l);
        }
    }
    let mut found = false;
    let mut i: usize = 0;
    let ghost first: int = 0;
    while i < guidance.lanes.len()
        invariant
            i <= guidance.lanes@.len(),
            guidance.lanes@.len() == old(guidance).lanes@.len(),
            guidance.total_lanes == old(guidance).total_lanes,
            guidance.destination == old(guidance).destination,
            forall|k: int|
                0 <= k < guidance.lanes@.len() ==> (#[trigger] guidance.lanes@[k]).turn
                    == old(guidance).lanes@[k].turn,
            forall|k: int|
                0 <= k < i ==> (#[trigger] guidance.lanes@[k]).is_recommended == suitable_turns(
                    turn,
                ).contains(old(guidance).lanes@[k].turn),
            found == exists|k: int|
                0 <= k < i && suitable_turns(turn).contains(#[trigger] old(guidance).lanes@[k].turn),
            found ==> 0 <= first < i && suitable_turns(turn).contains(old(guidance).lanes@[first].turn)
                && (forall|j: int|
                0 <= j < first ==> !suitable_turns(turn).contains(old(guidance).lanes@[j].turn))
                && guidance.recommended_lane == first as u8,
            !found ==> guidance.recommended_lane == old(guidance).recommended_lane,
        decreases guidance.lanes@.len() - i,
    {
        let lane = guidance.lanes[i];
        let rec = suits(lane.turn, turn);
        guidance.lanes.set(i, LaneInfo { turn: lane.turn, is_recommended: rec });
        if rec && !found {
            guidance.recommended_lane = i as u8;
            found = true;
            proof {
                first = i as int;
            }
        }
        i = i + 1;
    }
}

} // verus!
