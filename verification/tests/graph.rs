use blindspot::graph::junction_segments;

#[test]
fn way_split_at_shared_nodes() {
    let ways = vec![vec![1, 2, 3, 4, 5], vec![10, 3, 11]];
    let segs = junction_segments(&ways);
    assert_eq!(segs[0], vec![(0, 2), (2, 4)]);
    assert_eq!(segs[1], vec![(0, 1), (1, 2)]);
}

#[test]
fn lone_way_is_one_edge() {
    let segs = junction_segments(&vec![vec![7, 8, 9]]);
    assert_eq!(segs, vec![vec![(0, 2)]]);
}

#[test]
fn short_ways_have_no_edge() {
    let segs = junction_segments(&vec![vec![1], vec![]]);
    assert_eq!(segs, vec![vec![], vec![]]);
}

#[test]
fn node_repeated_in_same_way_is_junction() {
    let segs = junction_segments(&vec![vec![1, 2, 3, 2, 4]]);
    assert_eq!(segs, vec![vec![(0, 1), (1, 3), (3, 4)]]);
}
