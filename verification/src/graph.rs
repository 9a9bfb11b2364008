//! Construction of the pedestrian routing graph from OSM ways: a way is split into
//! edges at its junctions, the nodes shared with another way (or met twice), and at
//! its last node.
use std::collections::HashMap;
use vstd::prelude::*;

verus! {

broadcast use vstd::std_specs::hash::group_hash_axioms;

/// Occurrences of `id` in `s`.
pub open spec fn count_in(s: Seq<i64>, id: i64) -> nat
    decreases s.len(),
{
    if s.len() == 0 {
        0
    } else {
        count_in(s.drop_last(), id) + if s.last() == id {
            1nat
        } else {
            0nat
        }
    }
}

/// Occurrences of `id` over all `ways`.
pub open spec fn total_count(ways: Seq<Vec<i64>>, id: i64) -> nat
    decreases ways.len(),
{
    if ways.len() == 0 {
        0
    } else {
        total_count(ways.drop_last(), id) + count_in(ways.last()@, id)
    }
}

/// Total number of node references over all ways.
pub open spec fn total_len(ways: Seq<Vec<i64>>) -> nat
    decreases ways.len(),
{
    if ways.len() == 0 {
        0
    } else {
        total_len(ways.drop_last()) + ways.last()@.len()
    }
}

/// Node `i` of way `w` ends an edge: it is the way's last node, or its node occurs
/// more than once over all ways.
#[verifier::opaque]
pub open spec fn is_junction(ways: Seq<Vec<i64>>, w: int, i: int) -> bool {
    i == ways[w]@.len() - 1 || total_count(ways, ways[w]@[i]) > 1
}

/// Edges of way `w` from position `i` on, the current edge starting at `start`:
/// each junction closes the current edge and starts the next one.
pub open spec fn segments_from(ways: Seq<Vec<i64>>, w: int, start: int, i: int) -> Seq<
    (usize, usize),
>
    decreases ways[w]@.len() - i,
{
    if i < 0 || i >= ways[w]@.len() {
        Seq::empty()
    } else if is_junction(ways, w, i) {
        seq![(start as usize, i as usize)] + segments_from(ways, w, i, i + 1)
    } else {
        segments_from(ways, w, start, i + 1)
    }
}

/// The edges of way `w`, as pairs of positions in the way: none for a way of
/// fewer than two nodes.
pub open spec fn way_segments(ways: Seq<Vec<i64>>, w: int) -> Seq<(usize, usize)> {
    if ways[w]@.len() < 2 {
        Seq::empty()
    } else {
        segments_from(ways, w, 0, 1)
    }
}

/// Shape of the edges from `start`, scanning from `i`: they chain up to the way's
/// last node.
proof fn lemma_segments_from_shape(ways: Seq<Vec<i64>>, w: int, start: int, i: int)
    requires
        0 <= w < ways.len(),
        0 <= start < i < ways[w]@.len(),
        ways[w]@.len() <= usize::MAX,
    ensures
        ({
            let s = segments_from(ways, w, start, i);
            let n = ways[w]@.len();
            &&& s.len() > 0
            &&& s[0].0 == start
            &&& s.last().1 == n - 1
            &&& forall|k: int| 0 <= k < s.len() ==> (#[trigger] s[k]).0 < s[k].1 && s[k].1 < n
            &&& forall|k: int| 0 <= k < s.len() - 1 ==> (#[trigger] s[k]).1 == s[k + 1].0
            &&& forall|k: int| 0 <= k < s.len() ==> (#[trigger] s[k]).0 >= start
            &&& s[0].1 >= i
        }),
    decreases ways[w]@.len() - i,
{
    let n = ways[w]@.len();
    let s = segments_from(ways, w, start, i);
    if is_junction(ways, w, i) {
        if i < n - 1 {
            lemma_segments_from_shape(ways, w, i, i + 1);
            let t = segments_from(ways, w, i, i + 1);
            assert(s == seq![(start as usize, i as usize)] + t);
            assert forall|k: int| 0 <= k < s.len() - 1 implies (#[trigger] s[k]).1 == s[k + 1].0 by {
                if k > 0 {
                    assert(s[k] == t[k - 1]);
                }
                assert(s[k + 1] == t[k]);
            }
            assert forall|k: int| 0 <= k < s.len() implies (#[trigger] s[k]).0 < s[k].1 && s[k].1
                < n && s[k].0 >= start by {
                if k > 0 {
                    assert(s[k] == t[k - 1]);
                }
            }
        } else {
            assert(segments_from(ways, w, i, i + 1) =~= Seq::<(usize, usize)>::empty());
            assert(s =~= seq![(start as usize, i as usize)]);
        }
    } else {
        assert(i < n - 1) by {
            reveal(is_junction);
        }
        lemma_segments_from_shape(ways, w, start, i + 1);
    }
}

/// Junctions of the edges from `start`, scanning from `i`: every edge ends at a
/// junction, and no junction at or after `i` lies inside an edge.
proof fn lemma_segments_from_junctions(ways: Seq<Vec<i64>>, w: int, start: int, i: int)
    requires
        0 <= w < ways.len(),
        0 <= start < i < ways[w]@.len(),
        ways[w]@.len() <= usize::MAX,
    ensures
        ({
            let s = segments_from(ways, w, start, i);
            &&& forall|k: int| 0 <= k < s.len() ==> is_junction(ways, w, (#[trigger] s[k]).1 as int)
            &&& forall|k: int, p: int|
                #![trigger s[k], is_junction(ways, w, p)]
                0 <= k < s.len() && s[k].0 < p < s[k].1 && i <= p ==> !is_junction(ways, w, p)
        }),
    decreases ways[w]@.len() - i,
{
    let n = ways[w]@.len();
    let s = segments_from(ways, w, start, i);
    if is_junction(ways, w, i) {
        if i < n - 1 {
            lemma_segments_from_junctions(ways, w, i, i + 1);
            lemma_segments_from_shape(ways, w, i, i + 1);
            let t = segments_from(ways, w, i, i + 1);
            assert(s == seq![(start as usize, i as usize)] + t);
            assert forall|k: int| 0 <= k < s.len() implies is_junction(
                ways,
                w,
                (#[trigger] s[k]).1 as int,
            ) by {
                if k > 0 {
                    assert(s[k] == t[k - 1]);
                }
            }
            assert forall|k: int, p: int|
                #![trigger s[k], is_junction(ways, w, p)]
                0 <= k < s.len() && s[k].0 < p < s[k].1 && i <= p implies !is_junction(ways, w, p) by {
                if k > 0 {
                    assert(s[k] == t[k - 1]);
                }
            }
        } else {
            assert(segments_from(ways, w, i, i + 1) =~= Seq::<(usize, usize)>::empty());
            assert(s =~= seq![(start as usize, i as usize)]);
        }
    } else {
        assert(i < n - 1) by {
            reveal(is_junction);
        }
        lemma_segments_from_junctions(ways, w, start, i + 1);
        lemma_segments_from_shape(ways, w, start, i + 1);
    }
}

/// A way of two nodes or more is split into edges that chain from its first node
/// to its last: each edge ends at a junction, and no junction lies inside an edge.
pub proof fn law_segments_chain_way(ways: Seq<Vec<i64>>, w: int)
    requires
        0 <= w < ways.len(),
        ways[w]@.len() >= 2,
        ways[w]@.len() <= usize::MAX,
    ensures
        ({
            let s = way_segments(ways, w);
            let n = ways[w]@.len();
            &&& s.len() > 0
            &&& s[0].0 == 0
            &&& s.last().1 == n - 1
            &&& forall|k: int| 0 <= k < s.len() ==> (#[trigger] s[k]).0 < s[k].1
            &&& forall|k: int| 0 <= k < s.len() - 1 ==> (#[trigger] s[k]).1 == s[k + 1].0
            &&& forall|k: int| 0 <= k < s.len() ==> is_junction(ways, w, (#[trigger] s[k]).1 as int)
            &&& forall|k: int, p: int|
                #![trigger s[k], is_junction(ways, w, p)]
                0 <= k < s.len() && s[k].0 < p < s[k].1 ==> !is_junction(ways, w, p)
        }),
{
    lemma_segments_from_shape(ways, w, 0, 1);
    lemma_segments_from_junctions(ways, w, 0, 1);
}

/// The node at position `i` of way `w` also occurs at some other position, in
/// this way or in another.
pub open spec fn occurs_elsewhere(ways: Seq<Vec<i64>>, w: int, i: int) -> bool {
    exists|w2: int, i2: int|
        #![trigger ways[w2]@[i2]]
        0 <= w2 < ways.len() && 0 <= i2 < ways[w2]@.len() && (w2 != w || i2 != i) && ways[w2]@[i2]
            == ways[w]@[i]
}

proof fn lemma_count_in_some(s: Seq<i64>, id: i64)
    ensures
        count_in(s, id) >= 1 <==> exists|j: int| 0 <= j < s.len() && #[trigger] s[j] == id,
    decreases s.len(),
{
    if s.len() > 0 {
        let init = s.drop_last();
        lemma_count_in_some(init, id);
        if exists|j: int| 0 <= j < init.len() && #[trigger] init[j] == id {
            let j = choose|j: int| 0 <= j < init.len() && #[trigger] init[j] == id;
            assert(s[j] == init[j]);
        }
        if exists|j: int| 0 <= j < s.len() && #[trigger] s[j] == id {
            let j = choose|j: int| 0 <= j < s.len() && #[trigger] s[j] == id;
            if j < s.len() - 1 {
                assert(init[j] == s[j]);
            }
        }
    }
}

proof fn lemma_count_in_other(s: Seq<i64>, i: int)
    requires
        0 <= i < s.len(),
    ensures
        count_in(s, s[i]) >= 2 <==> exists|j: int| 0 <= j < s.len() && j != i && #[trigger] s[j] == s[i],
    decreases s.len(),
{
    let id = s[i];
    let init = s.drop_last();
    lemma_count_in_some(init, id);
    if i == s.len() - 1 {
        if exists|j: int| 0 <= j < init.len() && #[trigger] init[j] == id {
            let j = choose|j: int| 0 <= j < init.len() && #[trigger] init[j] == id;
            assert(s[j] == init[j]);
        }
        if exists|j: int| 0 <= j < s.len() && j != i && #[trigger] s[j] == id {
            let j = choose|j: int| 0 <= j < s.len() && j != i && #[trigger] s[j] == id;
            assert(init[j] == s[j]);
        }
    } else {
        assert(init[i] == id);
        lemma_count_in_other(init, i);
        if exists|j: int| 0 <= j < init.len() && j != i && #[trigger] init[j] == init[i] {
            let j = choose|j: int| 0 <= j < init.len() && j != i && #[trigger] init[j] == init[i];
            assert(s[j] == init[j]);
        }
        if exists|j: int| 0 <= j < s.len() && j != i && #[trigger] s[j] == s[i] {
            let j = choose|j: int| 0 <= j < s.len() && j != i && #[trigger] s[j] == s[i];
            if j < s.len() - 1 {
                assert(init[j] == s[j]);
            }
        }
    }
}

proof fn lemma_total_count_some(ways: Seq<Vec<i64>>, id: i64)
    ensures
        total_count(ways, id) >= 1 <==> exists|w2: int, i2: int|
            #![trigger ways[w2]@[i2]]
            0 <= w2 < ways.len() && 0 <= i2 < ways[w2]@.len() && ways[w2]@[i2] == id,
    decreases ways.len(),
{
    if ways.len() > 0 {
        let init = ways.drop_last();
        let last = ways.last()@;
        lemma_total_count_some(init, id);
        lemma_count_in_some(last, id);
        if exists|w2: int, i2: int|
            #![trigger init[w2]@[i2]]
            0 <= w2 < init.len() && 0 <= i2 < init[w2]@.len() && init[w2]@[i2] == id {
            let (w2, i2) = choose|w2: int, i2: int|
                #![trigger init[w2]@[i2]]
                0 <= w2 < init.len() && 0 <= i2 < init[w2]@.len() && init[w2]@[i2] == id;
            assert(ways[w2] == init[w2]);
            assert(ways[w2]@[i2] == id);
        }
        if exists|j: int| 0 <= j < last.len() && #[trigger] last[j] == id {
            let j = choose|j: int| 0 <= j < last.len() && #[trigger] last[j] == id;
            assert(ways[ways.len() - 1]@[j] == id);
        }
        if exists|w2: int, i2: int|
            #![trigger ways[w2]@[i2]]
            0 <= w2 < ways.len() && 0 <= i2 < ways[w2]@.len() && ways[w2]@[i2] == id {
            let (w2, i2) = choose|w2: int, i2: int|
                #![trigger ways[w2]@[i2]]
                0 <= w2 < ways.len() && 0 <= i2 < ways[w2]@.len() && ways[w2]@[i2] == id;
            if w2 < ways.len() - 1 {
                assert(init[w2] == ways[w2]);
                assert(init[w2]@[i2] == id);
            } else {
                assert(last[i2] == id);
            }
        }
    }
}

proof fn lemma_total_count_other(ways: Seq<Vec<i64>>, w: int, i: int)
    requires
        0 <= w < ways.len(),
        0 <= i < ways[w]@.len(),
    ensures
        total_count(ways, ways[w]@[i]) >= 2 <==> occurs_elsewhere(ways, w, i),
    decreases ways.len(),
{
    let id = ways[w]@[i];
    let init = ways.drop_last();
    let last = ways.last()@;
    let lw = ways.len() - 1;
    lemma_count_in_some(last, id);
    lemma_total_count_some(init, id);
    if w == lw {
        assert(last[i] == id);
        lemma_count_in_other(last, i);
        if exists|w2: int, i2: int|
            #![trigger init[w2]@[i2]]
            0 <= w2 < init.len() && 0 <= i2 < init[w2]@.len() && init[w2]@[i2] == id {
            let (w2, i2) = choose|w2: int, i2: int|
                #![trigger init[w2]@[i2]]
                0 <= w2 < init.len() && 0 <= i2 < init[w2]@.len() && init[w2]@[i2] == id;
            assert(ways[w2] == init[w2]);
            assert(ways[w2]@[i2] == id);
        }
        if exists|j: int| 0 <= j < last.len() && j != i && #[trigger] last[j] == last[i] {
            let j = choose|j: int| 0 <= j < last.len() && j != i && #[trigger] last[j] == last[i];
            assert(ways[lw]@[j] == id);
        }
        if occurs_elsewhere(ways, w, i) {
            let (w2, i2) = choose|w2: int, i2: int|
                #![trigger ways[w2]@[i2]]
                0 <= w2 < ways.len() && 0 <= i2 < ways[w2]@.len() && (w2 != w || i2 != i)
                    && ways[w2]@[i2] == ways[w]@[i];
            if w2 < lw {
                assert(init[w2] == ways[w2]);
                assert(init[w2]@[i2] == id);
            } else {
                assert(last[i2] == id);
            }
        }
    } else {
        assert(init[w] == ways[w]);
        lemma_total_count_other(init, w, i);
        if occurs_elsewhere(init, w, i) {
            let (w2, i2) = choose|w2: int, i2: int|
                #![trigger init[w2]@[i2]]
                0 <= w2 < init.len() && 0 <= i2 < init[w2]@.len() && (w2 != w || i2 != i)
                    && init[w2]@[i2] == init[w]@[i];
            assert(ways[w2] == init[w2]);
            assert(ways[w2]@[i2] == id);
        }
        if exists|j: int| 0 <= j < last.len() && #[trigger] last[j] == id {
            let j = choose|j: int| 0 <= j < last.len() && #[trigger] last[j] == id;
            assert(ways[lw]@[j] == id);
        }
        if occurs_elsewhere(ways, w, i) {
            let (w2, i2) = choose|w2: int, i2: int|
                #![trigger ways[w2]@[i2]]
                0 <= w2 < ways.len() && 0 <= i2 < ways[w2]@.len() && (w2 != w || i2 != i)
                    && ways[w2]@[i2] == ways[w]@[i];
            if w2 < lw {
                assert(init[w2] == ways[w2]);
                assert(init[w2]@[i2] == id);
                assert(init[w]@[i] == id);
            } else {
                assert(last[i2] == id);
            }
        }
    }
}

/// A node ends an edge exactly when it is the last node of its way or it occurs
/// at least twice over all the ways (another way passes there, or the way comes
/// back to it).
pub proof fn law_junction_iff_shared(ways: Seq<Vec<i64>>, w: int, i: int)
    requires
        0 <= w < ways.len(),
        0 <= i < ways[w]@.len(),
    ensures
        is_junction(ways, w, i) <==> (i == ways[w]@.len() - 1 || occurs_elsewhere(ways, w, i)),
{
    reveal(is_junction);
    lemma_total_count_other(ways, w, i);
}

/// Every way of two nodes or more is cut exactly at the nodes it shares: each edge
/// ends at the way's last node or at a node that occurs elsewhere, and no node
/// strictly inside an edge occurs elsewhere.
pub proof fn law_edges_cut_at_shared_nodes(ways: Seq<Vec<i64>>, w: int)
    requires
        0 <= w < ways.len(),
        ways[w]@.len() >= 2,
        ways[w]@.len() <= usize::MAX,
    ensures
        ({
            let s = way_segments(ways, w);
            let n = ways[w]@.len();
            &&& s.len() > 0
            &&& s[0].0 == 0
            &&& s.last().1 == n - 1
            &&& forall|k: int| 0 <= k < s.len() - 1 ==> (#[trigger] s[k]).1 == s[k + 1].0
            &&& forall|k: int|
                0 <= k < s.len() ==> (#[trigger] s[k]).0 < s[k].1 && (s[k].1 == n - 1
                    || occurs_elsewhere(ways, w, s[k].1 as int))
            &&& forall|k: int, p: int|
                #![trigger s[k], ways[w]@[p]]
                0 <= k < s.len() && s[k].0 < p < s[k].1 ==> !occurs_elsewhere(ways, w, p)
        }),
{
    law_segments_chain_way(ways, w);
    let s = way_segments(ways, w);
    let n = ways[w]@.len();
    assert forall|k: int| 0 <= k < s.len() implies (#[trigger] s[k]).0 < s[k].1 && (s[k].1 == n - 1
        || occurs_elsewhere(ways, w, s[k].1 as int)) by {
        assert(is_junction(ways, w, s[k].1 as int));
        lemma_segments_from_shape(ways, w, 0, 1);
        law_junction_iff_shared(ways, w, s[k].1 as int);
    }
    assert forall|k: int, p: int|
        #![trigger s[k], ways[w]@[p]]
        0 <= k < s.len() && s[k].0 < p < s[k].1 implies !occurs_elsewhere(ways, w, p) by {
        lemma_segments_from_shape(ways, w, 0, 1);
        assert(!is_junction(ways, w, p));
        law_junction_iff_shared(ways, w, p);
    }
}

/// Count held by the counting map for `id` (absent means zero).
pub open spec fn counted(m: Map<i64, usize>, id: i64) -> nat {
    if m.contains_key(id) {
        m[id] as nat
    } else {
        0
    }
}

proof fn lemma_total_len_prefix(ways: Seq<Vec<i64>>, w: int)
    requires
        0 <= w < ways.len(),
    ensures
        total_len(ways.take(w)) + ways[w]@.len() == total_len(ways.take(w + 1)),
        total_len(ways.take(w + 1)) <= total_len(ways),
    decreases ways.len(),
{
    assert(ways.take(w + 1).drop_last() =~= ways.take(w));
    if w + 1 < ways.len() {
        lemma_total_len_prefix(ways.drop_last(), w);
        assert(ways.drop_last().take(w) =~= ways.take(w));
        assert(ways.drop_last().take(w + 1) =~= ways.take(w + 1));
    } else {
        assert(ways.take(w + 1) =~= ways);
    }
}

proof fn lemma_count_le_len(s: Seq<i64>, id: i64)
    ensures
        count_in(s, id) <= s.len(),
    decreases s.len(),
{
    if s.len() > 0 {
        lemma_count_le_len(s.drop_last(), id);
    }
}

/// Counts, for every node id, its occurrences over all ways.
fn count_nodes(ways: &Vec<Vec<i64>>) -> (m: HashMap<i64, usize>)
    requires
        total_len(ways@) <= usize::MAX,
    ensures
        forall|id: i64| #[trigger] counted(m@, id) == total_count(ways@, id),
{
    let mut m: HashMap<i64, usize> = HashMap::new();
    let mut w: usize = 0;
    while w < ways.len()
        invariant
            w <= ways@.len(),
            total_len(ways@) <= usize::MAX,
            forall|id: i64| #[trigger] counted(m@, id) == total_count(ways@.take(w as int), id),
            forall|id: i64| #[trigger] counted(m@, id) <= total_len(ways@.take(w as int)),
        decreases ways@.len() - w,
    {
        let way = &ways[w];
        proof {
            lemma_total_len_prefix(ways@, w as int);
        }
        let mut i: usize = 0;
        while i < way.len()
            invariant
                w < ways@.len(),
                way == ways@[w as int],
                i <= way@.len(),
                total_len(ways@.take(w as int)) + way@.len() <= usize::MAX,
                forall|id: i64| #[trigger] counted(m@, id) == total_count(ways@.take(w as int), id)
                    + count_in(way@.take(i as int), id),
                forall|id: i64| #[trigger] counted(m@, id) <= total_len(ways@.take(w as int)) + i,
            decreases way@.len() - i,
        {
            let id = way[i];
            let c: usize = match m.get(&id) {
                Some(c) => *c,
                None => 0,
            };
            assert(c == counted(m@, id));
            proof {
                assert(way@.take(i + 1).drop_last() =~= way@.take(i as int));
            }
            let ghost old_m = m@;
            m.insert(id, c + 1);
            proof {
                assert forall|x: i64| #[trigger] counted(m@, x) == total_count(
                    ways@.take(w as int),
                    x,
                ) + count_in(way@.take(i + 1), x) by {
                    let s = way@.take(i + 1);
                    assert(s.drop_last() =~= way@.take(i as int));
                    assert(s.last() == id);
                    assert(count_in(s, x) == count_in(way@.take(i as int), x) + if id == x {
                        1nat
                    } else {
                        0nat
                    });
                    assert(counted(old_m, x) == total_count(ways@.take(w as int), x) + count_in(
                        way@.take(i as int),
                        x,
                    ));
                    if x != id {
                        assert(counted(m@, x) == counted(old_m, x));
                    }
                }
                assert forall|x: i64| #[trigger] counted(m@, x) <= total_len(ways@.take(w as int))
                    + i + 1 by {
                    assert(counted(old_m, x) <= total_len(ways@.take(w as int)) + i);
                    if x != id {
                        assert(counted(m@, x) == counted(old_m, x));
                    }
                }
            }
            i = i + 1;
        }
        proof {
            assert(way@.take(way@.len() as int) =~= way@);
            assert(ways@.take(w + 1).drop_last() =~= ways@.take(w as int));
            assert(ways@.take(w + 1).last() == ways@[w as int]);
        }
        w = w + 1;
    }
    proof {
        assert(ways@.take(ways@.len() as int) =~= ways@);
    }
    m
}

/// Splits every way into edges at its junctions. Result `w` lists the edges of
/// way `w` as `(first, last)` positions, in order along the way.
pub fn junction_segments(ways: &Vec<Vec<i64>>) -> (segs: Vec<Vec<(usize, usize)>>)
    requires
        total_len(ways@) <= usize::MAX,
    ensures
        segs@.len() == ways@.len(),
        forall|w: int| 0 <= w < ways@.len() ==> (#[trigger] segs@[w])@ == way_segments(ways@, w),
{
    let counts = count_nodes(ways);
    let mut segs: Vec<Vec<(usize, usize)>> = Vec::new();
    let mut w: usize = 0;
    while w < ways.len()
        invariant
            w <= ways@.len(),
            segs@.len() == w,
            forall|id: i64| #[trigger] counted(counts@, id) == total_count(ways@, id),
            forall|v: int| 0 <= v < w ==> (#[trigger] segs@[v])@ == way_segments(ways@, v),
        decreases ways@.len() - w,
    {
        let way = &ways[w];
        let n = way.len();
        let mut cur: Vec<(usize, usize)> = Vec::new();
        if n >= 2 {
            let mut start: usize = 0;
            let mut i: usize = 1;
            while i < n
                invariant
                    w < ways@.len(),
                    way == ways@[w as int],
                    n == way@.len(),
                    n >= 2,
                    1 <= i <= n,
                    start < i,
                    forall|id: i64| #[trigger] counted(counts@, id) == total_count(ways@, id),
                    cur@ + segments_from(ways@, w as int, start as int, i as int) == way_segments(
                        ways@,
                        w as int,
                    ),
                decreases n - i,
            {
                let id = way[i];
                let c: usize = match counts.get(&id) {
                    Some(c) => *c,
                    None => 0,
                };
                assert(c == counted(counts@, id));
                assert(c == total_count(ways@, id));
                proof {
                    reveal(is_junction);
                }
                if i == n - 1 || c > 1 {
                    let ghost before = cur@;
                    cur.push((start, i));
                    assert(cur@ + segments_from(ways@, w as int, i as int, i + 1) =~= before
                        + segments_from(ways@, w as int, start as int, i as int));
                    start = i;
                }
                i = i + 1;
            }
            assert(cur@ =~= way_segments(ways@, w as int));
        } else {
            assert(cur@ =~= way_segments(ways@, w as int));
        }
        segs.push(cur);
        w = w + 1;
    }
    segs
}

} // verus!
