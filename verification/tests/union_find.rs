use blindspot::union_find::{component_labels, group_overlapping, UnionFind};

#[test]
fn new_sets_are_singletons() {
    let mut uf = UnionFind::new(4);
    for i in 0..4 {
        assert_eq!(uf.find(i), i);
    }
}

#[test]
fn union_joins_and_find_agrees() {
    let mut uf = UnionFind::new(5);
    uf.union(0, 1);
    uf.union(3, 4);
    assert_eq!(uf.find(0), uf.find(1));
    assert_eq!(uf.find(3), uf.find(4));
    assert_ne!(uf.find(0), uf.find(3));
    assert_eq!(uf.find(2), 2);
    uf.union(1, 4);
    assert_eq!(uf.find(0), uf.find(3));
}

#[test]
fn union_by_rank_root_of_first_on_tie() {
    let mut uf = UnionFind::new(3);
    uf.union(1, 2);
    // equal ranks: the root of the first argument wins
    assert_eq!(uf.find(2), 1);
    uf.union(0, 2);
    // rank of 1 is now higher than rank of 0
    assert_eq!(uf.find(0), 1);
}

#[test]
fn merge_keeps_disjoint_groups_separate() {
    let groups = group_overlapping(2, &vec![]);
    assert_eq!(groups, vec![vec![0], vec![1]]);
}

#[test]
fn merge_combines_overlapping() {
    let groups = group_overlapping(2, &vec![(0, 1)]);
    assert_eq!(groups, vec![vec![0, 1]]);
}

#[test]
fn groups_are_transitive_components_in_order() {
    let groups = group_overlapping(6, &vec![(4, 5), (1, 4), (0, 2)]);
    assert_eq!(groups, vec![vec![0, 2], vec![1, 4, 5], vec![3]]);
}

#[test]
fn labels_match_components() {
    let labels = component_labels(4, &vec![(0, 3)]);
    assert_eq!(labels[0], labels[3]);
    assert_ne!(labels[0], labels[1]);
    assert_ne!(labels[1], labels[2]);
}
