use timeline::Timeline;

fn insertion_test(a: (u32, u32), b: (u32, u32)) {
    let mut timeline = Timeline::<(u32, u32)>::default();
    timeline.insert(a).unwrap();
    timeline.insert(b).unwrap();
}

#[test]
fn valid_insertion() {
    insertion_test((1, 2), (0, 1));
    insertion_test((1, 2), (2, 3));
}

#[test]
#[should_panic]
fn invalid_head_overwrapped_insertion() {
    insertion_test((1, 3), (0, 2))
}

#[test]
#[should_panic]
fn invalid_tail_overwrapped_insertion() {
    insertion_test((1, 3), (2, 4));
}

#[test]
#[should_panic]
fn invalid_inside_overwrapped_insertion() {
    insertion_test((1, 4), (2, 3));
}

#[test]
#[should_panic]
fn invalid_outside_overwrapped_insertion() {
    insertion_test((2, 3), (1, 4));
}

#[test]
#[should_panic]
fn invalid_inside_head_overwrapped_insertion() {
    insertion_test((1, 3), (1, 2));
}

#[test]
#[should_panic]
fn invalid_inside_tail_overwrapped_insertion() {
    insertion_test((1, 3), (2, 3));
}

fn inserted(a: (u32, u32), b: (u32, u32)) -> Timeline<(u32, u32)> {
    let mut timeline = Timeline::<(u32, u32)>::default();
    timeline.insert(a).unwrap();
    timeline.insert(b).unwrap();
    timeline
}

#[test]
fn valid_get() {
    assert_eq!(inserted((0, 1), (2, 3)).get(0), Some(&(0, 1)));
    assert_eq!(inserted((0, 1), (2, 3)).get(2), Some(&(2, 3)));
    assert_eq!(inserted((0, 1), (2, 4)).get(3), Some(&(2, 4)));
    assert_eq!(inserted((0, 1), (2, 3)).get(1), None);
    assert_eq!(inserted((0, 1), (2, 3)).get(3), None);
    assert_eq!(inserted((0, 1), (2, 3)).get(4), None);
}
