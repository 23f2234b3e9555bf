//! The dense small-key map.

use hindsight::small_map::{DefaultU32Key, Key, SmallMap};

#[test]
fn insert_hands_out_lowest_free_slots() {
    let mut m: SmallMap<DefaultU32Key, u64> = SmallMap::default();
    assert!(m.is_empty());
    let a = m.insert(10);
    let b = m.insert(20);
    let c = m.insert(30);
    assert_eq!(m.len(), 3);
    assert_eq!(a.into_usize(), 0);
    assert_eq!(b.into_usize(), 1);
    assert_eq!(c.into_usize(), 2);
    assert_eq!(m.get(a), Some(&10));
    assert_eq!(m.get(b), Some(&20));
    assert_eq!(m.get(c), Some(&30));
}

#[test]
fn remove_frees_the_slot_for_reuse() {
    let mut m: SmallMap<DefaultU32Key, u64> = SmallMap::default();
    let a = m.insert(1);
    let b = m.insert(2);
    let _c = m.insert(3);
    assert_eq!(m.remove(b), Some(2));
    assert_eq!(m.len(), 2);
    assert_eq!(m.get(b), None);
    // Removing again is a no-op.
    assert_eq!(m.remove(b), None);
    assert_eq!(m.len(), 2);
    // The freed slot is the next one handed out.
    let d = m.insert(4);
    assert_eq!(d.into_usize(), 1);
    assert_eq!(m.get(d), Some(&4));
    assert_eq!(m.get(a), Some(&1));
}

#[test]
fn set_replaces_only_occupied_slots() {
    let mut m: SmallMap<DefaultU32Key, u64> = SmallMap::default();
    let a = m.insert(5);
    assert!(m.set(a, 6));
    assert_eq!(m.get(a), Some(&6));
    let ghost_key = DefaultU32Key::try_from_usize(7).unwrap();
    assert!(!m.set(ghost_key, 9));
    assert_eq!(m.get(ghost_key), None);
    assert_eq!(m.len(), 1);
}

#[test]
fn key_conversion_round_trips() {
    let k = DefaultU32Key::try_from_usize(123).unwrap();
    assert_eq!(k.into_usize(), 123);
    assert!(DefaultU32Key::try_from_usize(u32::MAX as usize).is_none());
}

#[test]
fn protected_slot_is_never_touched() {
    let mut m: SmallMap<DefaultU32Key, u64> = SmallMap::default();
    let me = m.insert(1);
    let other = m.insert(2);
    // Updating another slot works; updating the protected one is
    // refused without change.
    assert!(m.set_excluding(me, other, 20));
    assert_eq!(m.get(other), Some(&20));
    assert!(!m.set_excluding(me, me, 99));
    assert_eq!(m.get(me), Some(&1));
}
