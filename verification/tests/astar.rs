use blindspot::astar::reconstruct;
use std::collections::HashMap;

#[test]
fn path_follows_predecessors() {
    let mut m = HashMap::new();
    m.insert(3i64, 2i64);
    m.insert(2, 1);
    m.insert(9, 8);
    assert_eq!(reconstruct(&m, 3), vec![1, 2, 3]);
}

#[test]
fn start_alone() {
    let m: HashMap<i64, i64> = HashMap::new();
    assert_eq!(reconstruct(&m, 5), vec![5]);
}

#[test]
fn unrelated_cycle_is_ignored() {
    let mut m = HashMap::new();
    m.insert(4i64, 7i64);
    m.insert(7, 1);
    m.insert(8, 9);
    m.insert(9, 8);
    let p = reconstruct(&m, 4);
    assert_eq!(p, vec![1, 7, 4]);
    let mut seen = std::collections::HashSet::new();
    assert!(p.iter().all(|n| seen.insert(*n)));
}
