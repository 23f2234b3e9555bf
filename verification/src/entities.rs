//! Entity-level data shared with the simulation layer: the closed set
//! of game actions and the discriminants of the stock entity kinds.

use vstd::prelude::*;

verus! {

/// A key into the simulation's entity table.
pub type EntityKey = usize;

/// Actions an entity can request of the level driver.
#[derive(Clone, PartialEq, Eq, Debug)]
pub enum GameAction {
    StartFadeOut,
    SoftReset,
    HardResetKeepPlayer,
    HardReset,
    LoadLevel(String),
}

/// A placeholder entity that does nothing.
#[derive(Clone, Copy, PartialEq, Eq, Structural, Debug)]
pub struct Empty;

/// Cell materials a level can be painted with; only whether a
/// material blocks is load-bearing for the core.
#[derive(Clone, Copy, PartialEq, Eq, Structural, Debug)]
pub enum MaterialKind {
    Solid,
    Mirror,
}

#[derive(Clone, PartialEq, Eq, Debug)]
pub enum ElevatorState {
    Running { held_open: bool, state: ElevatorRunningState },
    Closing { close_time: usize, expected_occupants: Option<Vec<EntityKey>> },
    Waiting { close_time: usize, remaining_time: usize },
    Used,
    Explode,
    Broken,
}

#[derive(Clone, PartialEq, Eq, Debug)]
pub enum ElevatorRunningState {
    Active,
    Recording { close_time: usize, expected_occupants: Vec<EntityKey> },
}

#[derive(Clone, Copy, PartialEq, Eq, Structural, Debug)]
pub enum ElevatorDirection {
    East,
    North,
    West,
    South,
}

impl ElevatorDirection {
    /// Unit cell offset of the direction.
    pub fn offset(self) -> (r: (i64, i64))
        ensures
            r == self.spec_offset(),
    {
        match self {
            ElevatorDirection::East => (1i64, 0i64),
            ElevatorDirection::North => (0i64, -1i64),
            ElevatorDirection::West => (-1i64, 0i64),
            ElevatorDirection::South => (0i64, 1i64),
        }
    }

    pub open spec fn spec_offset(self) -> (i64, i64) {
        match self {
            ElevatorDirection::East => (1i64, 0i64),
            ElevatorDirection::North => (0i64, -1i64),
            ElevatorDirection::West => (-1i64, 0i64),
            ElevatorDirection::South => (0i64, 1i64),
        }
    }
}

#[derive(Clone, Copy, PartialEq, Eq, Structural, Debug)]
pub enum ElevatorDoorOrientation {
    Vertical,
    Horizontal,
}

#[derive(Clone, Copy, PartialEq, Eq, Structural, Debug)]
pub enum LogicGateDirection {
    East,
    North,
    West,
    South,
}

#[derive(Clone, Copy, PartialEq, Eq, Structural, Debug)]
pub enum LogicGateKind {
    And,
    Or,
    Not,
    Passthrough,
    Toggle { state: bool, active: bool },
    Hold { state: bool },
    Start,
    End,
}

impl LogicGateKind {
    /// True for gate kinds wired to at most one input.
    pub fn is_single_input(self) -> (r: bool)
        ensures
            r == self.spec_is_single_input(),
    {
        match self {
            LogicGateKind::And => false,
            LogicGateKind::Or => false,
            LogicGateKind::Not => true,
            LogicGateKind::Passthrough => true,
            LogicGateKind::Toggle { .. } => true,
            LogicGateKind::Hold { .. } => true,
            LogicGateKind::Start => true,
            LogicGateKind::End => true,
        }
    }

    pub open spec fn spec_is_single_input(self) -> bool {
        match self {
            LogicGateKind::And => false,
            LogicGateKind::Or => false,
            _ => true,
        }
    }
}

/// The powered-time counter a freshly loaded gate starts with:
/// saturated, so an old signal cannot read as a fresh edge.
pub fn default_time_powered() -> (r: u16)
    ensures
        r == u16::MAX,
{
    u16::MAX
}

} // verus!
