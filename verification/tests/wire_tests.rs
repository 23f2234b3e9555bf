//! Wires, gates and entity discriminants.

use hindsight::entities::{
    default_time_powered, ElevatorDirection, ElevatorDoorOrientation, ElevatorRunningState,
    ElevatorState, GameAction, LogicGateDirection, LogicGateKind, MaterialKind,
};
use hindsight::wire::{Wire, WireGate};

#[test]
fn set_channel_sets_and_clears_bits() {
    let mut w = Wire::default();
    assert_eq!(w.data, 0);
    w.set_channel(0, true);
    w.set_channel(5, true);
    assert_eq!(w.data, 0b100001);
    w.set_channel(0, false);
    assert_eq!(w.data, 0b100000);
    w.set_channel(31, true);
    assert_eq!(w.data, 0x8000_0020);
    // Clearing an unset channel is a no-op.
    w.set_channel(3, false);
    assert_eq!(w.data, 0x8000_0020);
}

#[test]
fn gate_terminals() {
    let and = WireGate::And { inputs: vec![1, 2, 3], output: 9 };
    assert_eq!(and.inputs(), vec![1, 2, 3]);
    assert_eq!(and.outputs(), vec![9]);
    let not = WireGate::Not { input: 4, output: 5 };
    assert_eq!(not.inputs(), vec![4]);
    assert_eq!(not.outputs(), vec![5]);
    let split = WireGate::Split { input: 7, outputs: vec![8, 9] };
    assert_eq!(split.inputs(), vec![7]);
    assert_eq!(split.outputs(), vec![8, 9]);
}

#[test]
fn gate_kind_arity() {
    assert!(!LogicGateKind::And.is_single_input());
    assert!(!LogicGateKind::Or.is_single_input());
    assert!(LogicGateKind::Not.is_single_input());
    assert!(LogicGateKind::Passthrough.is_single_input());
    assert!(LogicGateKind::Toggle { state: false, active: true }.is_single_input());
    assert!(LogicGateKind::Hold { state: true }.is_single_input());
    assert!(LogicGateKind::Start.is_single_input());
    assert!(LogicGateKind::End.is_single_input());
}

#[test]
fn entity_discriminants_compare() {
    assert_eq!(default_time_powered(), u16::MAX);
    assert_eq!(ElevatorDirection::North.offset(), (0, -1));
    assert_eq!(ElevatorDirection::East.offset(), (1, 0));
    assert_ne!(ElevatorDoorOrientation::Vertical, ElevatorDoorOrientation::Horizontal);
    assert_ne!(LogicGateDirection::East, LogicGateDirection::West);
    assert_ne!(MaterialKind::Solid, MaterialKind::Mirror);
    let a = GameAction::LoadLevel(String::from("intro"));
    assert_eq!(a, GameAction::LoadLevel(String::from("intro")));
    assert_ne!(a, GameAction::SoftReset);
    let r = ElevatorState::Running {
        held_open: true,
        state: ElevatorRunningState::Active,
    };
    assert_ne!(r, ElevatorState::Used);
}
