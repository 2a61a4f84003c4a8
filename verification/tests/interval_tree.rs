use ficus_backend::utils::interval_tree::{Interval, IntervalTree};

fn intervals() -> Vec<Interval> {
    vec![
        Interval::new(1, 5),
        Interval::new(3, 8),
        Interval::new(10, 12),
        Interval::new_with_data(6, 7, Some(9)),
    ]
}

fn tree() -> IntervalTree<impl Fn(&u64, &u64) -> Vec<u64>> {
    IntervalTree::new(intervals(), |left: &u64, right: &u64| (*left..*right).collect::<Vec<u64>>())
}

#[test]
fn interval_holds_its_ends() {
    let i = Interval::new(2, 4);
    assert!(i.contains(2));
    assert!(i.contains(4));
    assert!(!i.contains(5));
    assert!(!i.contains(1));
    assert_eq!(Interval::new_with_data(2, 4, Some(1)).data, Some(1));
    assert_eq!(i.data, None);
}

#[test]
fn overlaps_for_a_point() {
    let tree = tree();
    assert_eq!(tree.search_overlaps_for_point(4), vec![Interval::new(1, 5), Interval::new(3, 8)]);
    assert_eq!(tree.search_overlaps_for_point(6), vec![Interval::new(3, 8), Interval::new_with_data(6, 7, Some(9))]);
    assert_eq!(tree.search_overlaps_for_point(9), vec![]);
    assert_eq!(tree.search_overlaps_for_point(12), vec![Interval::new(10, 12)]);
}

#[test]
fn overlaps_for_an_interval_use_the_range_creator() {
    let tree = tree();
    assert_eq!(tree.search_overlaps_for_interval(8, 10), vec![Interval::new(3, 8)]);
    assert_eq!(
        tree.search_overlaps_for_interval(5, 11),
        vec![Interval::new(1, 5), Interval::new(3, 8), Interval::new_with_data(6, 7, Some(9)), Interval::new(10, 12)]
    );
    assert_eq!(tree.search_overlaps_for_points(&vec![0, 9]), vec![]);
}

#[test]
fn envelopes_lie_within_the_bounds() {
    let tree = tree();
    assert_eq!(tree.search_envelopes(2, 9), vec![Interval::new(3, 8), Interval::new_with_data(6, 7, Some(9))]);
    assert_eq!(tree.search_envelopes(0, 20).len(), 4);
    assert_eq!(tree.search_envelopes(5, 5), vec![]);
    assert_eq!(tree.search_envelopes(9, 3), vec![]);
}

#[test]
fn envelope_starting_at_the_right_end_is_not_found() {
    let tree = IntervalTree::new(vec![Interval::new(5, 5)], |_: &u64, _: &u64| Vec::<u64>::new());
    assert_eq!(tree.search_envelopes(0, 5), vec![]);
    assert_eq!(tree.search_envelopes(0, 6), vec![Interval::new(5, 5)]);
    assert_eq!(tree.search_envelopes(5, 6), vec![Interval::new(5, 5)]);
}

#[test]
fn nodes_hold_every_interval_around_their_center() {
    let tree = tree();
    let nodes = tree.dump_nodes();
    let mut held: Vec<Interval> = nodes.iter().flat_map(|n| n.3.clone()).collect();
    held.sort_by_key(|i| (i.left, i.right));
    let mut all = intervals();
    all.sort_by_key(|i| (i.left, i.right));
    assert_eq!(held, all);
    for (index, node) in nodes.iter().enumerate() {
        for interval in &node.3 {
            assert!(interval.contains(node.2));
        }
        if let Some(child) = node.0 {
            assert!(child > index);
        }
        if let Some(child) = node.1 {
            assert!(child > index);
        }
    }
}

#[test]
fn duplicate_intervals_come_back_once() {
    let tree = IntervalTree::new(vec![Interval::new(1, 2), Interval::new(1, 2)], |l: &u64, r: &u64| vec![*l, *r]);
    assert_eq!(tree.search_overlaps_for_point(1), vec![Interval::new(1, 2)]);
}
