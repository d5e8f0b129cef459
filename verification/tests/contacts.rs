use circles::collision::contacts::mark_collisions;

#[test]
fn overlapping_pairs_mark_both_circles_and_are_counted() {
    let pairs = vec![(0, 1), (1, 2), (3, 4)];
    let overlapping = vec![true, false, true];
    let (flags, count) = mark_collisions(6, &pairs, &overlapping);
    assert_eq!(flags, vec![true, true, false, true, true, false]);
    assert_eq!(count, 2);
}

#[test]
fn no_pairs_leaves_every_circle_unmarked() {
    let (flags, count) = mark_collisions(3, &vec![], &vec![]);
    assert_eq!(flags, vec![false, false, false]);
    assert_eq!(count, 0);
}

#[test]
fn circle_in_several_overlapping_pairs_is_marked_once() {
    let pairs = vec![(0, 2), (1, 2), (0, 1)];
    let overlapping = vec![true, true, false];
    let (flags, count) = mark_collisions(3, &pairs, &overlapping);
    assert_eq!(flags, vec![true, true, true]);
    assert_eq!(count, 2);
}

#[test]
fn no_circles() {
    let (flags, count) = mark_collisions(0, &vec![], &vec![]);
    assert!(flags.is_empty());
    assert_eq!(count, 0);
}
