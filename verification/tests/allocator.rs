use polymesh::{Key, Range, RangeSet, VKey, VKeyMarker};

#[test]
fn test_take_lowest_first() {
    let mut rs = RangeSet::new(Range::new(0, 3));
    assert_eq!(rs.take_any_one(), Some(0));
    assert_eq!(rs.take_any_one(), Some(1));
    assert_eq!(rs.take_any_one(), Some(2));
    assert_eq!(rs.take_any_one(), Some(3));
    assert_eq!(rs.take_any_one(), None);
}

#[test]
fn test_release_and_retake() {
    let mut rs = RangeSet::new(Range::new(0, 10));
    for expected in 0..5u32 {
        assert_eq!(rs.take_any_one(), Some(expected));
    }
    // Release out of order; the pool hands the lowest back first.
    assert!(rs.release_one(3));
    assert!(rs.release_one(1));
    assert_eq!(rs.take_any_one(), Some(1));
    assert_eq!(rs.take_any_one(), Some(3));
    assert_eq!(rs.take_any_one(), Some(5));
}

#[test]
fn test_release_merges_intervals() {
    let mut rs = RangeSet::new(Range::new(0, 5));
    for expected in 0..6u32 {
        assert_eq!(rs.take_any_one(), Some(expected));
    }
    assert_eq!(rs.take_any_one(), None);
    // Release in an order that exercises the singleton, grow-left,
    // grow-right and bridge cases of the merge logic.
    assert!(rs.release_one(2));
    assert!(rs.release_one(0));
    assert!(rs.release_one(4));
    assert!(rs.release_one(3));
    assert!(rs.release_one(1));
    for expected in 0..5u32 {
        assert_eq!(rs.take_any_one(), Some(expected));
    }
    assert_eq!(rs.take_any_one(), None);
}

#[test]
fn test_double_release_is_rejected() {
    let mut rs = RangeSet::new(Range::new(0, 4));
    assert_eq!(rs.take_any_one(), Some(0));
    assert!(rs.release_one(0));
    assert!(!rs.release_one(0));
    assert!(!rs.release_one(3));
}

#[test]
fn test_key_values() {
    let k: VKey = Key::new(5);
    assert!(k.valid());
    assert_eq!(k.value(), 5);
    let bad: Key<VKeyMarker> = Key::invalid();
    assert!(!bad.valid());
    assert_eq!(bad.value(), 0xffff_ffff);
    assert_eq!(k, Key::new(5));
    assert_ne!(k, bad);
}
