//! Turn and maneuver types used in route guidance.
use vstd::prelude::*;

verus! {

/// Types of turns and maneuvers along a route.
#[derive(Debug, Clone, Copy, PartialEq, Eq, Structural)]
pub enum TurnType {
    /// Route start
    Start,
    /// Continue straight
    Straight,
    /// Slight left turn
    SlightLeft,
    /// Left turn
    Left,
    /// Sharp left turn
    SharpLeft,
    /// Slight right turn
    SlightRight,
    /// Right turn
    Right,
    /// Sharp right turn
    SharpRight,
    /// U-turn
    UTurn,
    /// Arrived at destination
    Destination,
}

/// The integer code of each turn type, as exchanged with the UI layer.
pub open spec fn turn_code(t: TurnType) -> int {
    match t {
        TurnType::Start => 0,
        TurnType::Straight => 1,
        TurnType::SlightLeft => 2,
        TurnType::Left => 3,
        TurnType::SharpLeft => 4,
        TurnType::SlightRight => 5,
        TurnType::Right => 6,
        TurnType::SharpRight => 7,
        TurnType::UTurn => 8,
        TurnType::Destination => 9,
    }
}

/// Human-readable name of each turn type.
pub open spec fn turn_name(t: TurnType) -> Seq<char> {
    match t {
        TurnType::Start => "Start"@,
        TurnType::Straight => "Straight"@,
        TurnType::SlightLeft => "Slight Left"@,
        TurnType::Left => "Left"@,
        TurnType::SharpLeft => "Sharp Left"@,
        TurnType::SlightRight => "Slight Right"@,
        TurnType::Right => "Right"@,
        TurnType::SharpRight => "Sharp Right"@,
        TurnType::UTurn => "U-Turn"@,
        TurnType::Destination => "Destination"@,
    }
}

/// Short spoken/displayed instruction of each turn type.
pub open spec fn turn_instruction(t: TurnType) -> Seq<char> {
    match t {
        TurnType::Start => "Start"@,
        TurnType::Straight => "Continue straight"@,
        TurnType::SlightLeft => "Keep left"@,
        TurnType::Left => "Turn left"@,
        TurnType::SharpLeft => "Turn sharp left"@,
        TurnType::SlightRight => "Keep right"@,
        TurnType::Right => "Turn right"@,
        TurnType::SharpRight => "Turn sharp right"@,
        TurnType::UTurn => "Make a U-turn"@,
        TurnType::Destination => "You have arrived"@,
    }
}

impl TurnType {
    /// Convert to the integer code used by the UI layer.
    pub fn to_int(self) -> (r: i32)
        ensures
            r == turn_code(self),
            0 <= r <= 9,
    {
        match self {
            TurnType::Start => 0,
            TurnType::Straight => 1,
            TurnType::SlightLeft => 2,
            TurnType::Left => 3,
            TurnType::SharpLeft => 4,
            TurnType::SlightRight => 5,
            TurnType::Right => 6,
            TurnType::SharpRight => 7,
            TurnType::UTurn => 8,
            TurnType::Destination => 9,
        }
    }

    /// Create from an integer code; codes outside `0..=9` give `None`.
    pub fn from_int(value: i32) -> (r: Option<Self>)
        ensures
            r is Some <==> 0 <= value <= 9,
            r matches Some(t) ==> turn_code(t) == value,
    {
        match value {
            0 => Some(TurnType::Start),
            1 => Some(TurnType::Straight),
            2 => Some(TurnType::SlightLeft),
            3 => Some(TurnType::Left),
            4 => Some(TurnType::SharpLeft),
            5 => Some(TurnType::SlightRight),
            6 => Some(TurnType::Right),
            7 => Some(TurnType::SharpRight),
            8 => Some(TurnType::UTurn),
            9 => Some(TurnType::Destination),
            _ => None,
        }
    }

    /// Human-readable name of this turn type.
    pub fn name(&self) -> (r: &'static str)
        ensures
            r@ == turn_name(*self),
    {
        match self {
            TurnType::Start => "Start",
            TurnType::Straight => "Straight",
            TurnType::SlightLeft => "Slight Left",
            TurnType::Left => "Left",
            TurnType::SharpLeft => "Sharp Left",
            TurnType::SlightRight => "Slight Right",
            TurnType::Right => "Right",
            TurnType::SharpRight => "Sharp Right",
            TurnType::UTurn => "U-Turn",
            TurnType::Destination => "Destination",
        }
    }

    /// Short instruction for this turn.
    pub fn instruction(&self) -> (r: &'static str)
        ensures
            r@ == turn_instruction(*self),
    {
        match self {
            TurnType::Start => "Start",
            TurnType::Straight => "Continue straight",
            TurnType::SlightLeft => "Keep left",
            TurnType::Left => "Turn left",
            TurnType::SharpLeft => "Turn sharp left",
            TurnType::SlightRight => "Keep right",
            TurnType::Right => "Turn right",
            TurnType::SharpRight => "Turn sharp right",
            TurnType::UTurn => "Make a U-turn",
            TurnType::Destination => "You have arrived",
        }
    }
}

/// Decoding an encoded turn type gives it back.
pub proof fn lemma_turn_code_roundtrip(t: TurnType)
    ensures
        0 <= turn_code(t) <= 9,
        forall|u: TurnType| turn_code(u) == turn_code(t) ==> u == t,
{
}

} // verus!
