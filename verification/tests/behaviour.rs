use timeline::{Timeline, TimelineItem};

#[test]
fn empty_timeline_covers_nothing() {
    let timeline = Timeline::<(u64, u64)>::default();
    assert_eq!(timeline.get(0), None);
    assert_eq!(timeline.get(7), None);
    assert_eq!(timeline.get(u64::MAX), None);
}

#[test]
fn rejection_hands_back_the_item_and_changes_nothing() {
    let mut timeline = Timeline::<(u64, u64)>::default();
    timeline.insert((1, 3)).unwrap();
    assert_eq!(timeline.insert((0, 2)), Err((0, 2)));
    assert_eq!(timeline.insert((2, 4)), Err((2, 4)));
    assert_eq!(timeline.insert((1, 3)), Err((1, 3)));
    assert_eq!(timeline.insert((0, 9)), Err((0, 9)));
    assert_eq!(timeline.get(0), None);
    assert_eq!(timeline.get(1), Some(&(1, 3)));
    assert_eq!(timeline.get(2), Some(&(1, 3)));
    assert_eq!(timeline.get(3), None);
}

#[test]
fn abutting_ranges_are_accepted_in_any_order() {
    let mut rising = Timeline::<(u64, u64)>::default();
    rising.insert((0, 2)).unwrap();
    rising.insert((2, 4)).unwrap();
    rising.insert((4, 8)).unwrap();
    let mut falling = Timeline::<(u64, u64)>::default();
    falling.insert((4, 8)).unwrap();
    falling.insert((2, 4)).unwrap();
    falling.insert((0, 2)).unwrap();
    for p in 0..10u64 {
        assert_eq!(rising.get(p), falling.get(p));
    }
    assert_eq!(rising.get(3), Some(&(2, 4)));
    assert_eq!(rising.get(8), None);
}

#[test]
fn order_of_disjoint_inserts_does_not_matter() {
    let items = [(0u64, 1u64), (2, 3), (5, 9), (12, 13)];
    let mut forward = Timeline::<(u64, u64)>::default();
    for item in items {
        forward.insert(item).unwrap();
    }
    let mut backward = Timeline::<(u64, u64)>::default();
    for item in items.iter().rev() {
        backward.insert(*item).unwrap();
    }
    for p in 0..15u64 {
        assert_eq!(forward.get(p), backward.get(p));
    }
}

#[test]
fn is_insertable_spots_each_kind_of_overlap() {
    let mut timeline = Timeline::<(u64, u64)>::default();
    timeline.insert((10, 20)).unwrap();
    assert!(!timeline.is_insertable(&(5, 11)));
    assert!(!timeline.is_insertable(&(19, 25)));
    assert!(!timeline.is_insertable(&(12, 15)));
    assert!(!timeline.is_insertable(&(5, 25)));
    assert!(!timeline.is_insertable(&(10, 20)));
    assert!(timeline.is_insertable(&(0, 10)));
    assert!(timeline.is_insertable(&(20, 30)));
}

#[test]
fn remove_frees_the_range_for_reuse() {
    let mut timeline = Timeline::<(u64, u64)>::default();
    timeline.insert((1, 2)).unwrap();
    timeline.insert((3, 4)).unwrap();
    timeline.remove(&(1, 2));
    assert_eq!(timeline.get(1), None);
    assert_eq!(timeline.get(3), Some(&(3, 4)));
    timeline.insert((0, 3)).unwrap();
    assert_eq!(timeline.get(1), Some(&(0, 3)));
}

#[test]
fn remove_of_an_absent_start_is_a_no_op() {
    let mut timeline = Timeline::<(u64, u64)>::default();
    timeline.insert((3, 4)).unwrap();
    timeline.remove(&(5, 6));
    assert_eq!(timeline.get(3), Some(&(3, 4)));
}

#[test]
fn remove_goes_by_start_position_alone() {
    let mut timeline = Timeline::<(u64, u64)>::default();
    timeline.insert((3, 4)).unwrap();
    timeline.remove(&(3, 100));
    assert_eq!(timeline.get(3), None);
}

#[test]
fn positions_at_the_top_of_the_range_work() {
    let mut timeline = Timeline::<(u64, u64)>::default();
    timeline.insert((u64::MAX - 2, u64::MAX)).unwrap();
    assert_eq!(timeline.get(u64::MAX - 2), Some(&(u64::MAX - 2, u64::MAX)));
    assert_eq!(timeline.get(u64::MAX - 1), Some(&(u64::MAX - 2, u64::MAX)));
    assert_eq!(timeline.get(u64::MAX), None);
    assert!(!timeline.is_insertable(&(u64::MAX - 1, u64::MAX)));
}

#[test]
fn item_accessors_report_the_range() {
    let pair: (u32, u32) = (4, 9);
    assert_eq!(pair.start(), 4);
    assert_eq!(pair.end(), 9);
    let wide: (u64, u64) = (0, u64::MAX);
    assert_eq!(wide.start(), 0);
    assert_eq!(wide.end(), u64::MAX);
}
