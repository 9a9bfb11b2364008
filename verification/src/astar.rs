//! Path recovery for the A* pedestrian router: once the search reaches the
//! destination, the route is read back through the predecessor links.
use std::collections::HashMap;
use vstd::prelude::*;

verus! {

broadcast use vstd::std_specs::hash::group_hash_axioms;

/// The node `i` links back from `end` along `came_from`, if the chain is that long.
pub open spec fn nth_pred(came_from: Map<i64, i64>, end: i64, i: nat) -> Option<i64>
    decreases i,
{
    if i == 0 {
        Some(end)
    } else {
        match nth_pred(came_from, end, (i - 1) as nat) {
            Some(n) => if came_from.contains_key(n) {
                Some(came_from[n])
            } else {
                None
            },
            None => None,
        }
    }
}

/// Following the predecessor links from `end` comes to a node without predecessor
/// (the chain from `end` has no cycle; links elsewhere do not matter).
pub open spec fn chain_ends(came_from: Map<i64, i64>, end: i64) -> bool {
    exists|len: nat| #[trigger] nth_pred(came_from, end, len) is None
}

/// `path` is the chain of predecessors that ends at `end`: it starts at a node
/// with no predecessor, and each node is the predecessor of the next.
pub open spec fn is_chain_to(came_from: Map<i64, i64>, path: Seq<i64>, end: i64) -> bool {
    &&& path.len() >= 1
    &&& path.last() == end
    &&& !came_from.contains_key(path[0])
    &&& forall|i: int|
        0 <= i < path.len() - 1 ==> came_from.contains_key(#[trigger] path[i + 1])
            && came_from[path[i + 1]] == path[i]
}

/// Two equal positions of the chain stay equal when both move on.
proof fn lemma_same_node_same_future(came_from: Map<i64, i64>, end: i64, i: nat, j: nat, m: nat)
    requires
        nth_pred(came_from, end, i) is Some,
        nth_pred(came_from, end, i) == nth_pred(came_from, end, j),
    ensures
        nth_pred(came_from, end, i + m) == nth_pred(came_from, end, j + m),
    decreases m,
{
    if m > 0 {
        lemma_same_node_same_future(came_from, end, i, j, (m - 1) as nat);
    }
}

/// The route from the start node to `end`, read back through `came_from`; no node
/// appears twice in it.
pub fn reconstruct(came_from: &HashMap<i64, i64>, end: i64) -> (path: Vec<i64>)
    requires
        chain_ends(came_from@, end),
    ensures
        is_chain_to(came_from@, path@, end),
        path@.no_duplicates(),
{
    let ghost cf = came_from@;
    let ghost bound = choose|len: nat| #[trigger] nth_pred(cf, end, len) is None;
    // `back` holds the chain from `end` backwards: back[i] is nth_pred(i).
    let mut back: Vec<i64> = Vec::new();
    back.push(end);
    let mut cur = end;
    loop
        invariant
            cf == came_from@,
            nth_pred(cf, end, bound) is None,
            1 <= back@.len() <= bound,
            back@.last() == cur,
            forall|i: int| 0 <= i < back@.len() ==> nth_pred(cf, end, i as nat) == Some(#[trigger] back@[i]),
        ensures
            1 <= back@.len(),
            !cf.contains_key(back@.last()),
            forall|i: int| 0 <= i < back@.len() ==> nth_pred(cf, end, i as nat) == Some(#[trigger] back@[i]),
        decreases bound - back@.len(),
    {
        match came_from.get(&cur) {
            Some(prev) => {
                let p = *prev;
                let ghost k = back@.len();
                assert(nth_pred(cf, end, (k - 1) as nat) == Some(cur));
                assert(nth_pred(cf, end, k as nat) == Some(p));
                back.push(p);
                cur = p;
                proof {
                    if back@.len() > bound {
                        assert(nth_pred(cf, end, bound) == Some(back@[bound as int]));
                    }
                }
            },
            None => {
                break ;
            },
        }
    }
    let n = back.len();
    proof {
        // the chain ends right after `back`
        assert(nth_pred(cf, end, (n - 1) as nat) == Some(back@[n - 1]));
        assert(nth_pred(cf, end, n as nat) is None);
        // no node repeats in `back`
        assert forall|a: int, b: int| 0 <= a < b < n implies back@[a] != back@[b] by {
            if back@[a] == back@[b] {
                let m = (n - b) as nat;
                lemma_same_node_same_future(cf, end, a as nat, b as nat, m);
                assert(nth_pred(cf, end, (a + m) as nat) == Some(back@[a + m]));
            }
        }
    }
    let mut path: Vec<i64> = Vec::new();
    let mut i: usize = 0;
    while i < n
        invariant
            n == back@.len(),
            i <= n,
            path@.len() == i,
            forall|j: int| 0 <= j < i ==> #[trigger] path@[j] == back@[n - 1 - j],
        decreases n - i,
    {
        path.push(back[n - 1 - i]);
        i = i + 1;
    }
    proof {
        assert forall|i: int| 0 <= i < path@.len() - 1 implies came_from@.contains_key(
            #[trigger] path@[i + 1],
        ) && came_from@[path@[i + 1]] == path@[i] by {
            let b = n - 2 - i;
            assert(path@[i + 1] == back@[b]);
            assert(path@[i] == back@[b + 1]);
            assert(nth_pred(cf, end, b as nat) == Some(back@[b]));
            assert(nth_pred(cf, end, (b + 1) as nat) == Some(back@[b + 1]));
        }
        assert(path@[0] == back@[n - 1]);
        assert forall|a: int, b: int| 0 <= a < path@.len() && 0 <= b < path@.len() && a != b implies path@[a]
            != path@[b] by {
            assert(path@[a] == back@[n - 1 - a]);
            assert(path@[b] == back@[n - 1 - b]);
        }
    }
    path
}

} // verus!
