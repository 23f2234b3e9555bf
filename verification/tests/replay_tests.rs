//! Paradox evaluation and the end-to-end record/replay loop.

use hindsight::corner::Pixel;
use hindsight::geometry::{FixedPoint, FixedVec, SCALE};
use hindsight::grid::TileIndex;
use hindsight::light::LightGrid;
use hindsight::replay::{
    compare_states, entity_edges_within_view, entity_within_view, paradox_level, windowed_paradox,
    EntityVisibleState, Observation, Player, PlayerState, CONFUSION_DECAY,
};

fn obs(
    current: Option<EntityVisibleState>,
    expected: Option<EntityVisibleState>,
) -> Observation {
    Observation { current, expected }
}

fn state(x: i64, y: i64, extra: u64) -> EntityVisibleState {
    EntityVisibleState::new(FixedPoint { x, y }, extra)
}

#[test]
fn compare_states_detects_exactly_mismatches() {
    let me = FixedPoint { x: 0, y: 0 };
    let dir = FixedVec { x: SCALE, y: 0 };
    let width = 2 * SCALE;
    let a = state(3 * SCALE, 0, 0);
    let b = state(4 * SCALE, 0, 0);
    assert_eq!(compare_states(me, dir, width, Some(a), Some(a)), None);
    assert_eq!(compare_states(me, dir, width, None, None), None);
    let lv = compare_states(me, dir, width, Some(a), Some(b)).unwrap();
    assert!(1 <= lv && lv <= SCALE);
    // A nearby dead-center mismatch weighs fully.
    assert_eq!(lv, SCALE);
    // Appearing or vanishing entities are mismatches too.
    assert!(compare_states(me, dir, width, Some(a), None).is_some());
    assert!(compare_states(me, dir, width, None, Some(b)).is_some());
}

#[test]
fn far_or_peripheral_mismatch_still_registers() {
    let me = FixedPoint { x: 0, y: 0 };
    let dir = FixedVec { x: SCALE, y: 0 };
    let width = 2 * SCALE;
    // Far behind the observer: weight is reduced but never zero.
    let far = state(-900 * SCALE, 12 * SCALE, 1);
    let lv = compare_states(me, dir, width, Some(far), None).unwrap();
    assert!(lv >= 1);
    assert!(lv < SCALE / 4);
}

#[test]
fn paradox_level_takes_worst_mismatch() {
    let me = FixedPoint { x: 0, y: 0 };
    let dir = FixedVec { x: SCALE, y: 0 };
    let width = 2 * SCALE;
    let a = state(3 * SCALE, 0, 0);
    let b = state(4 * SCALE, 0, 0);
    let clean = vec![obs(Some(a), Some(a)), obs(None, None)];
    assert!(paradox_level(me, dir, width, &clean).is_none());
    let dirty = vec![obs(Some(a), Some(a)), obs(Some(a), Some(b))];
    let (lv, pos) = paradox_level(me, dir, width, &dirty).unwrap();
    assert!(1 <= lv && lv <= SCALE);
    assert_eq!(pos, a.position);
}

#[test]
fn confusion_rises_on_mismatch_and_decays_when_clean() {
    let mut p = Player::default();
    p.state = PlayerState::Recording;
    let before = p.confusion;
    p.apply_paradox(Some(SCALE));
    assert!(p.confusion > before);
    let high = p.confusion;
    p.apply_paradox(None);
    assert_eq!(p.confusion, high - CONFUSION_DECAY);
    // Decay clamps at zero.
    for _ in 0..10_000 {
        p.apply_paradox(None);
    }
    assert_eq!(p.confusion, 0);
    assert_eq!(p.state, PlayerState::Recording);
}

#[test]
fn sustained_full_paradox_kills() {
    let mut p = Player::default();
    p.state = PlayerState::Recording;
    let mut frames = 0;
    while p.state == PlayerState::Recording && frames < 100 {
        p.apply_paradox(Some(SCALE));
        frames += 1;
    }
    assert_eq!(p.state, PlayerState::Dead);
    assert_eq!(p.confusion, SCALE);
    // Full paradox kills in under a second of frames.
    assert!(frames <= 60);
}

#[test]
fn entity_within_view_requires_line_of_sight() {
    let mut g = LightGrid::default();
    for x in -8..12i64 {
        for y in -8..12i64 {
            g.set(TileIndex { x, y }, Pixel::Air);
        }
    }
    let origin = FixedPoint { x: SCALE / 2, y: SCALE / 2 };
    let area = g.trace_light_from(origin, None);
    let visible = FixedPoint { x: 5 * SCALE, y: SCALE / 2 };
    assert!(entity_within_view(&g, &area, visible));
    g.set(TileIndex { x: 2, y: 0 }, Pixel::Solid);
    let area = g.trace_light_from(origin, None);
    let hidden = FixedPoint { x: 6 * SCALE + SCALE / 2, y: SCALE / 2 };
    assert!(!entity_within_view(&g, &area, hidden));
}

#[test]
fn record_and_replay_walk_reproduces_positions_with_zero_confusion() {
    let mut p = Player::default();
    // Record a walk from (0, 0) to (10, 0), one cell per frame.
    for f in 0..=10usize {
        p.position = FixedPoint { x: f as i64 * SCALE, y: 0 };
        assert!(p.record_frame(f).is_some());
    }
    // Travel back: replay the same frames.
    p.state = PlayerState::Recording;
    for f in 0..=10usize {
        assert!(p.replay_frame(f));
        assert_eq!(p.position, FixedPoint { x: f as i64 * SCALE, y: 0 });
        // Nothing observed, nothing expected: no paradox.
        assert!(paradox_level(
            p.position,
            p.view_direction,
            p.view_width,
            &Vec::new()
        )
        .is_none());
        p.apply_paradox(None);
        assert_eq!(p.confusion, 0);
        assert_eq!(p.state, PlayerState::Recording);
    }
    // Frames outside the recording stay absent.
    assert!(!p.replay_frame(11));
}

#[test]
fn frame_window_believes_the_most_charitable_frame() {
    let p = FixedPoint { x: 0, y: 0 };
    // One clean frame in the window clears the verdict.
    let window = vec![Some((100i64, p)), None, Some((500, p))];
    assert!(windowed_paradox(&window).is_none());
    // All frames mismatched: the smallest level wins.
    let window = vec![Some((300i64, p)), Some((100, p)), Some((500, p))];
    assert_eq!(windowed_paradox(&window), Some((100, p)));
    assert!(windowed_paradox(&Vec::new()).is_none());
}

#[test]
fn axis_sweep_stops_at_walls() {
    let mut g = LightGrid::default();
    for x in -8..20i64 {
        for y in -8..20i64 {
            g.set(TileIndex { x, y }, Pixel::Air);
        }
    }
    // A wall column at x = 10.
    for y in -8..20i64 {
        g.set(TileIndex { x: 10, y }, Pixel::Solid);
    }
    let mut p = Player::default();
    p.size = FixedVec { x: 2 * SCALE, y: 2 * SCALE };
    p.position = FixedPoint { x: 2 * SCALE, y: 3 * SCALE };
    // Free move: the full displacement is taken.
    p.move_along_axis(&g, true, 3 * SCALE);
    assert_eq!(p.position, FixedPoint { x: 5 * SCALE, y: 3 * SCALE });
    // Blocked move: stop with the footprint flush against the wall.
    p.move_along_axis(&g, true, 5 * SCALE);
    assert_eq!(p.position, FixedPoint { x: 9 * SCALE, y: 3 * SCALE });
    // Back away from the wall (the inclusive footprint must clear
    // the wall column before a sideways move is free again).
    p.move_along_axis(&g, true, -3 * SCALE / 2);
    assert_eq!(p.position, FixedPoint { x: 7 * SCALE + SCALE / 2, y: 3 * SCALE });
    p.move_along_axis(&g, false, -SCALE);
    assert_eq!(p.position, FixedPoint { x: 7 * SCALE + SCALE / 2, y: 2 * SCALE });
}

#[test]
fn entity_edges_count_when_center_is_out_of_view() {
    let mut g = LightGrid::default();
    for x in -8..12i64 {
        for y in -8..12i64 {
            g.set(TileIndex { x, y }, Pixel::Air);
        }
    }
    let origin = FixedPoint { x: SCALE / 2, y: SCALE / 2 };
    // A narrow cone looking along +x.
    let range = hindsight::area::AngleRange {
        left: FixedVec { x: 4 * SCALE, y: -SCALE },
        right: FixedVec { x: 4 * SCALE, y: SCALE },
    };
    let area = g.trace_light_from(origin, Some(range));
    // An entity centered behind the far wall (its center fails the
    // line-of-sight test), with one edge reaching across the fan's
    // far boundary at the wall.
    let center = FixedPoint { x: 14 * SCALE, y: SCALE / 2 };
    let crossing_edge = (
        FixedPoint { x: 11 * SCALE, y: SCALE / 2 },
        FixedPoint { x: 13 * SCALE, y: SCALE / 2 },
    );
    assert!(!entity_edges_within_view(&g, &area, center, &Vec::new()));
    assert!(entity_edges_within_view(&g, &area, center, &vec![crossing_edge]));
}
