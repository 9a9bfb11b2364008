//! Union-find (disjoint sets) with union by rank and path halving, and the
//! grouping of overlapping avoidance zones into connected components.
use vstd::prelude::*;

verus! {

/// Number of roots (`p[i] == i`) among the first `k` slots of a parent array.
pub open spec fn count_roots(p: Seq<usize>, k: int) -> nat
    decreases k,
{
    if k <= 0 {
        0
    } else {
        count_roots(p, k - 1) + if p[k - 1] as int == k - 1 {
            1nat
        } else {
            0nat
        }
    }
}

/// `i` and `j` are joined once the first `k` pairs have been merged, pair by pair:
/// this is the equivalence closure of the relation given by `pairs[0..k]`.
pub open spec fn joined(pairs: Seq<(usize, usize)>, k: nat, i: int, j: int) -> bool
    decreases k,
{
    if k == 0 {
        i == j
    } else {
        let a = pairs[k - 1].0 as int;
        let b = pairs[k - 1].1 as int;
        let km = (k - 1) as nat;
        ||| joined(pairs, km, i, j)
        ||| (joined(pairs, km, i, a) && joined(pairs, km, b, j))
        ||| (joined(pairs, km, i, b) && joined(pairs, km, a, j))
    }
}

proof fn lemma_count_identity(p: Seq<usize>, k: int)
    requires
        0 <= k <= p.len(),
        forall|i: int| 0 <= i < k ==> p[i] as int == i,
    ensures
        count_roots(p, k) == k,
    decreases k,
{
    if k > 0 {
        lemma_count_identity(p, k - 1);
    }
}

proof fn lemma_count_update_same_kind(p: Seq<usize>, k: int, idx: int, v: usize)
    requires
        0 <= idx < p.len(),
        k <= p.len(),
        (p[idx] as int == idx) == (v as int == idx),
    ensures
        count_roots(p.update(idx, v), k) == count_roots(p, k),
    decreases k,
{
    if k > 0 {
        lemma_count_update_same_kind(p, k - 1, idx, v);
    }
}

proof fn lemma_count_update_beyond(p: Seq<usize>, k: int, idx: int, v: usize)
    requires
        0 <= idx < p.len(),
        k <= idx,
    ensures
        count_roots(p.update(idx, v), k) == count_roots(p, k),
    decreases k,
{
    if k > 0 {
        lemma_count_update_beyond(p, k - 1, idx, v);
    }
}

proof fn lemma_count_update_unroot(p: Seq<usize>, k: int, idx: int, v: usize)
    requires
        0 <= idx < k <= p.len(),
        p[idx] as int == idx,
        v as int != idx,
    ensures
        count_roots(p.update(idx, v), k) + 1 == count_roots(p, k),
    decreases k,
{
    if k - 1 == idx {
        lemma_count_update_beyond(p, k - 1, idx, v);
    } else {
        lemma_count_update_unroot(p, k - 1, idx, v);
    }
}

proof fn lemma_count_two_roots(p: Seq<usize>, k: int, a: int, b: int)
    requires
        0 <= a < k <= p.len(),
        0 <= b < k,
        a != b,
        p[a] as int == a,
        p[b] as int == b,
    ensures
        count_roots(p, k) >= 2,
    decreases k,
{
    if k - 1 == a {
        lemma_count_one_root(p, k - 1, b);
    } else if k - 1 == b {
        lemma_count_one_root(p, k - 1, a);
    } else {
        lemma_count_two_roots(p, k - 1, a, b);
    }
}

proof fn lemma_count_one_root(p: Seq<usize>, k: int, a: int)
    requires
        0 <= a < k <= p.len(),
        p[a] as int == a,
    ensures
        count_roots(p, k) >= 1,
    decreases k,
{
    if k - 1 != a {
        lemma_count_one_root(p, k - 1, a);
    }
}

/// Disjoint sets over `0..n`.
pub struct UnionFind {
    parent: Vec<usize>,
    rank: Vec<usize>,
    rep: Ghost<Seq<usize>>,
}

impl UnionFind {
    /// The representative (root) of each element's set.
    pub closed spec fn view(&self) -> Seq<usize> {
        self.rep@
    }

    /// The rank of each element; it decides which root wins a union.
    pub closed spec fn ranks(&self) -> Seq<usize> {
        self.rank@
    }

    /// Number of elements.
    pub closed spec fn size(&self) -> nat {
        self.parent@.len()
    }

    pub closed spec fn wf(&self) -> bool {
        let n = self.parent@.len();
        let p = self.parent@;
        let r = self.rank@;
        let rep = self.rep@;
        &&& r.len() == n
        &&& rep.len() == n
        &&& forall|i: int| 0 <= i < n ==> #[trigger] p[i] < n
        &&& forall|i: int| 0 <= i < n ==> #[trigger] rep[i] < n
        &&& forall|i: int| 0 <= i < n ==> p[#[trigger] rep[i] as int] == rep[i]
        &&& forall|i: int| 0 <= i < n ==> rep[#[trigger] p[i] as int] == rep[i]
        &&& forall|i: int| 0 <= i < n && #[trigger] p[i] as int == i ==> rep[i] as int == i
        &&& forall|i: int| 0 <= i < n && #[trigger] p[i] as int != i ==> r[i] < r[p[i] as int]
        &&& forall|i: int| 0 <= i < n ==> #[trigger] r[i] + count_roots(p, n as int) <= n
    }

    /// `n` singleton sets: every element is its own representative.
    pub fn new(n: usize) -> (uf: Self)
        ensures
            uf.wf(),
            uf.size() == n,
            forall|i: int| 0 <= i < n ==> #[trigger] uf@[i] == i,
            forall|i: int| 0 <= i < n ==> #[trigger] uf.ranks()[i] == 0,
    {
        let mut parent: Vec<usize> = Vec::new();
        let mut rank: Vec<usize> = Vec::new();
        let mut i: usize = 0;
        while i < n
            invariant
                i <= n,
                parent@.len() == i,
                rank@.len() == i,
                forall|j: int| 0 <= j < i ==> #[trigger] parent@[j] == j,
                forall|j: int| 0 <= j < i ==> #[trigger] rank@[j] == 0,
            decreases n - i,
        {
            parent.push(i);
            rank.push(0);
            i = i + 1;
        }
        proof {
            lemma_count_identity(parent@, n as int);
        }
        UnionFind { parent, rank, rep: Ghost(parent@) }
    }

    /// Finds the representative of `x`, halving the path on the way up.
    /// The sets and their representatives are unchanged.
    pub fn find(&mut self, x: usize) -> (r: usize)
        requires
            old(self).wf(),
            x < old(self).size(),
        ensures
            final(self).wf(),
            final(self).size() == old(self).size(),
            final(self)@ == old(self)@,
            final(self).ranks() == old(self).ranks(),
            r == old(self)@[x as int],
    {
        let ghost n = self.parent@.len();
        let ghost x0 = x;
        let mut x = x;
        proof {
            lemma_count_one_root(self.parent@, n as int, self.rep@[x as int] as int);
        }
        while self.parent[x] != x
            invariant
                self.wf(),
                self.parent@.len() == n,
                self.rep@ == old(self).rep@,
                self.rank@ == old(self).rank@,
                x < n,
                self.rep@[x as int] == self.rep@[x0 as int],
                count_roots(self.parent@, n as int) >= 1,
            decreases n - self.rank@[x as int],
        {
            let p = self.parent[x];
            let gp = self.parent[p];
            proof {
                let ps = self.parent@;
                assert(ps[x as int] as int != x as int);
                assert(self.rank@[x as int] < self.rank@[p as int]);
                if ps[p as int] as int != p as int {
                    assert(self.rank@[p as int] < self.rank@[gp as int]);
                }
                assert(gp as int != x as int);
                lemma_count_update_same_kind(ps, n as int, x as int, gp);
            }
            self.parent.set(x, gp);
            proof {
                let ps = self.parent@;
                assert forall|i: int| 0 <= i < n implies self.rep@[#[trigger] ps[i] as int]
                    == self.rep@[i] by {
                    if i == x as int {
                        assert(self.rep@[gp as int] == self.rep@[p as int]);
                    }
                }
                assert forall|i: int| 0 <= i < n && #[trigger] ps[i] as int != i implies
                    self.rank@[i] < self.rank@[ps[i] as int] by {
                    if i == x as int {
                        assert(self.rank@[p as int] <= self.rank@[gp as int]);
                    }
                }
                assert forall|i: int| 0 <= i < n implies ps[#[trigger] self.rep@[i] as int]
                    == self.rep@[i] by {
                    let ri = self.rep@[i] as int;
                    if ri == x as int {
                        assert(old(self).rep@[ri] as int == ri);
                    }
                }
                assert forall|i: int| 0 <= i < n && #[trigger] ps[i] as int == i implies
                    self.rep@[i] as int == i by {
                }
            }
            x = gp;
        }
        x
    }

    /// Merges the sets of `x` and `y` by rank. The root of larger rank (or the root
    /// of `x` on a tie, whose rank then grows by one) represents the merged set;
    /// no other rank changes.
    pub fn union(&mut self, x: usize, y: usize)
        requires
            old(self).wf(),
            x < old(self).size(),
            y < old(self).size(),
        ensures
            final(self).wf(),
            final(self).size() == old(self).size(),
            ({
                let rx = old(self)@[x as int];
                let ry = old(self)@[y as int];
                let win = if rx == ry {
                    rx
                } else if old(self).ranks()[rx as int] < old(self).ranks()[ry as int] {
                    ry
                } else {
                    rx
                };
                &&& forall|i: int|
                    0 <= i < old(self).size() ==> #[trigger] final(self)@[i] == if old(self)@[i]
                        == rx || old(self)@[i] == ry {
                        win
                    } else {
                        old(self)@[i]
                    }
                &&& final(self).ranks() == if rx != ry && old(self).ranks()[rx as int]
                    == old(self).ranks()[ry as int] {
                    old(self).ranks().update(rx as int, (old(self).ranks()[rx as int] + 1) as usize)
                } else {
                    old(self).ranks()
                }
            }),
    {
        let ghost n = self.parent@.len();
        let _len = self.parent.len();
        let px = self.find(x);
        let py = self.find(y);
        if px == py {
            return ;
        }
        let ghost pre = self.parent@;
        let ghost rep0 = self.rep@;
        proof {
            lemma_count_two_roots(pre, n as int, px as int, py as int);
        }
        let rank_x = self.rank[px];
        let rank_y = self.rank[py];
        assert(self.rank@[px as int] + count_roots(pre, n as int) <= n);
        let (win, lose) = if rank_x < rank_y {
            (py, px)
        } else {
            (px, py)
        };
        proof {
            lemma_count_update_unroot(pre, n as int, lose as int, win);
        }
        self.parent.set(lose, win);
        if rank_x == rank_y {
            self.rank.set(px, rank_x + 1);
        }
        self.rep = Ghost(
            Seq::new(n, |i: int| if rep0[i] == px || rep0[i] == py { win } else { rep0[i] }),
        );
        proof {
            let ps = self.parent@;
            let rs = self.rank@;
            let rep = self.rep@;
            assert forall|i: int| 0 <= i < n implies rep[#[trigger] ps[i] as int] == rep[i] by {
                if i != lose as int {
                    assert(ps[i] == pre[i]);
                    assert(rep0[pre[i] as int] == rep0[i]);
                }
            }
            assert forall|i: int| 0 <= i < n implies ps[#[trigger] rep[i] as int] == rep[i] by {
                if rep0[i] != px && rep0[i] != py {
                    assert(pre[rep0[i] as int] == rep0[i]);
                }
            }
            assert forall|i: int| 0 <= i < n && #[trigger] ps[i] as int == i implies rep[i] as int
                == i by {
                if i != lose as int {
                    assert(pre[i] as int == i);
                    assert(rep0[i] as int == i);
                }
            }
            assert forall|i: int| 0 <= i < n && #[trigger] ps[i] as int != i implies rs[i]
                < rs[ps[i] as int] by {
                if i != lose as int {
                    assert(pre[i] == ps[i]);
                    assert(old(self).rank@[i] < old(self).rank@[pre[i] as int]);
                }
            }
            assert forall|i: int| 0 <= i < n implies #[trigger] rs[i] + count_roots(ps, n as int)
                <= n by {
                assert(old(self).rank@[i] + count_roots(pre, n as int) <= n);
            }
        }
    }
}

/// Labels every element `0..n` with the representative of its component once all
/// `pairs` are merged: two labels agree exactly when their elements are joined.
pub fn component_labels(n: usize, pairs: &Vec<(usize, usize)>) -> (labels: Vec<usize>)
    requires
        forall|k: int| 0 <= k < pairs@.len() ==> (#[trigger] pairs@[k]).0 < n && pairs@[k].1 < n,
    ensures
        labels@.len() == n,
        forall|i: int| 0 <= i < n ==> #[trigger] labels@[i] < n,
        forall|i: int, j: int|
            0 <= i < n && 0 <= j < n ==> (#[trigger] labels@[i] == #[trigger] labels@[j]
                <==> joined(pairs@, pairs@.len(), i, j)),
{
    let mut uf = UnionFind::new(n);
    let mut k: usize = 0;
    while k < pairs.len()
        invariant
            uf.wf(),
            uf.size() == n,
            k <= pairs@.len(),
            forall|q: int| 0 <= q < pairs@.len() ==> (#[trigger] pairs@[q]).0 < n && pairs@[q].1 < n,
            forall|i: int, j: int|
                0 <= i < n && 0 <= j < n ==> (#[trigger] uf@[i] == #[trigger] uf@[j] <==> joined(
                    pairs@,
                    k as nat,
                    i,
                    j,
                )),
        decreases pairs@.len() - k,
    {
        let (a, b) = pairs[k];
        let ghost old_rep = uf@;
        uf.union(a, b);
        proof {
            assert forall|i: int, j: int| 0 <= i < n && 0 <= j < n implies (#[trigger] uf@[i]
                == #[trigger] uf@[j] <==> joined(pairs@, (k + 1) as nat, i, j)) by {
                assert(old_rep[i] == old_rep[a as int] <==> joined(pairs@, k as nat, i, a as int));
                assert(old_rep[j] == old_rep[a as int] <==> joined(pairs@, k as nat, a as int, j));
                assert(old_rep[i] == old_rep[b as int] <==> joined(pairs@, k as nat, i, b as int));
                assert(old_rep[j] == old_rep[b as int] <==> joined(pairs@, k as nat, b as int, j));
                assert(old_rep[i] == old_rep[j] <==> joined(pairs@, k as nat, i, j));
            }
        }
        k = k + 1;
    }
    let mut labels: Vec<usize> = Vec::new();
    let mut i: usize = 0;
    while i < n
        invariant
            uf.wf(),
            uf.size() == n,
            i <= n,
            labels@.len() == i,
            forall|j: int| 0 <= j < i ==> #[trigger] labels@[j] == uf@[j],
            forall|j: int| 0 <= j < n ==> #[trigger] uf@[j] < n,
            forall|a: int, b: int|
                0 <= a < n && 0 <= b < n ==> (#[trigger] uf@[a] == #[trigger] uf@[b] <==> joined(
                    pairs@,
                    pairs@.len(),
                    a,
                    b,
                )),
        decreases n - i,
    {
        let r = uf.find(i);
        labels.push(r);
        i = i + 1;
    }
    labels
}

/// Some group of `groups` holds `x`.
pub open spec fn in_some_group(groups: Seq<Vec<usize>>, x: usize) -> bool {
    exists|g: int| 0 <= g < groups.len() && (#[trigger] groups[g])@.contains(x)
}

/// Groups `0..n` into the connected components of the overlap relation `pairs`.
/// Groups come in order of their smallest element, and each lists its elements
/// in increasing order.
pub fn group_overlapping(n: usize, pairs: &Vec<(usize, usize)>) -> (groups: Vec<Vec<usize>>)
    requires
        forall|k: int| 0 <= k < pairs@.len() ==> (#[trigger] pairs@[k]).0 < n && pairs@[k].1 < n,
    ensures
        forall|g: int| 0 <= g < groups@.len() ==> (#[trigger] groups@[g])@.len() > 0,
        forall|g: int| 0 <= g < groups@.len() ==> (#[trigger] groups@[g])@[0] < n,
        forall|g: int, a: int, b: int|
            #![trigger groups@[g]@[a], groups@[g]@[b]]
            0 <= g < groups@.len() && 0 <= a < b < groups@[g]@.len() ==> groups@[g]@[a]
                < groups@[g]@[b],
        forall|g: int, x: usize|
            #![trigger groups@[g]@.contains(x)]
            #![trigger joined(pairs@, pairs@.len(), groups@[g]@[0] as int, x as int)]
            0 <= g < groups@.len() && x < n ==> (groups@[g]@.contains(x) <==> joined(
                pairs@,
                pairs@.len(),
                groups@[g]@[0] as int,
                x as int,
            )),
        forall|g: int, x: int|
            0 <= g < groups@.len() && 0 <= x < groups@[g]@[0] ==> !#[trigger] joined(
                pairs@,
                pairs@.len(),
                groups@[g]@[0] as int,
                x,
            ),
        forall|g1: int, g2: int|
            0 <= g1 < g2 < groups@.len() ==> (#[trigger] groups@[g1])@[0] < (
            #[trigger] groups@[g2])@[0],
        forall|x: usize| x < n ==> #[trigger] in_some_group(groups@, x),
{
    let labels = component_labels(n, pairs);
    let mut seen: Vec<bool> = Vec::new();
    let mut s: usize = 0;
    while s < n
        invariant
            s <= n,
            seen@.len() == s,
            forall|r: int| 0 <= r < s ==> !(#[trigger] seen@[r]),
        decreases n - s,
    {
        seen.push(false);
        s = s + 1;
    }
    let mut groups: Vec<Vec<usize>> = Vec::new();
    let mut i: usize = 0;
    while i < n
        invariant
            i <= n,
            labels@.len() == n,
            seen@.len() == n,
            forall|x: int| 0 <= x < n ==> #[trigger] labels@[x] < n,
            forall|r: int|
                0 <= r < n ==> (#[trigger] seen@[r] <==> exists|j: int|
                    0 <= j < i && #[trigger] labels@[j] as int == r),
            forall|g: int| 0 <= g < groups@.len() ==> (#[trigger] groups@[g])@.len() > 0,
            forall|g: int| 0 <= g < groups@.len() ==> (#[trigger] groups@[g])@[0] < i,
            forall|g: int, a: int, b: int|
                #![trigger groups@[g]@[a], groups@[g]@[b]]
                0 <= g < groups@.len() && 0 <= a < b < groups@[g]@.len() ==> groups@[g]@[a]
                    < groups@[g]@[b],
            forall|g: int, x: usize|
                0 <= g < groups@.len() && x < n ==> (#[trigger] groups@[g]@.contains(x)
                    <==> labels@[x as int] == labels@[groups@[g]@[0] as int]),
            forall|g: int, x: int|
                #![trigger groups@[g], labels@[x]]
                0 <= g < groups@.len() && 0 <= x < groups@[g]@[0] ==> labels@[x]
                    != labels@[groups@[g]@[0] as int],
            forall|g1: int, g2: int|
                0 <= g1 < g2 < groups@.len() ==> (#[trigger] groups@[g1])@[0] < (
                #[trigger] groups@[g2])@[0],
            forall|x: usize| x < i ==> #[trigger] in_some_group(groups@, x),
        decreases n - i,
    {
        let r = labels[i];
        if !seen[r] {
            proof {
                assert forall|x: int| 0 <= x < i implies labels@[x] != r by {
                    if labels@[x] == r {
                        assert(seen@[r as int]);
                    }
                }
            }
            let mut members: Vec<usize> = Vec::new();
            members.push(i);
            assert(members@[0] == i);
            let mut j: usize = i + 1;
            while j < n
                invariant
                    i < j <= n,
                    labels@.len() == n,
                    r == labels@[i as int],
                    members@.len() > 0,
                    members@[0] == i,
                    forall|a: int, b: int|
                        0 <= a < b < members@.len() ==> #[trigger] members@[a] < #[trigger] members@[b],
                    forall|a: int| 0 <= a < members@.len() ==> i <= #[trigger] members@[a] < j,
                    forall|x: usize|
                        #![trigger members@.contains(x)]
                        #![trigger labels@[x as int]]
                        i <= x < j ==> (members@.contains(x) <==> labels@[x as int] == r),
                decreases n - j,
            {
                let ghost old_m = members@;
                if labels[j] == r {
                    members.push(j);
                }
                proof {
                    assert forall|x: usize| i <= x < j + 1 implies (#[trigger] members@.contains(x)
                        <==> labels@[x as int] == r) by {
                        if x < j {
                            if members@.contains(x) {
                                let k = choose|k: int| 0 <= k < members@.len() && members@[k] == x;
                                assert(k < old_m.len());
                                assert(old_m[k] == x);
                                assert(old_m.contains(x));
                            }
                            if old_m.contains(x) {
                                let k = choose|k: int| 0 <= k < old_m.len() && old_m[k] == x;
                                assert(members@[k] == x);
                            }
                        }
                        if x == j && labels@[x as int] == r {
                            assert(members@[members@.len() - 1] == j);
                        }
                        if x == j && members@.contains(x) {
                            let k = choose|k: int| 0 <= k < members@.len() && members@[k] == x;
                            if k < old_m.len() {
                                assert(old_m[k] < j);
                            }
                        }
                    }
                }
                j = j + 1;
            }
            proof {
                assert forall|x: int| 0 <= x < n implies (members@.contains(x as usize) <==> labels@[x]
                    == r) by {
                    if x < i && members@.contains(x as usize) {
                        let k = choose|k: int| 0 <= k < members@.len() && members@[k] == x;
                        assert(members@[k] >= i);
                    }
                }
            }
            seen.set(r, true);
            let ghost old_groups = groups@;
            groups.push(members);
            proof {
                let gl = groups@.len() - 1;
                assert(groups@[gl]@[0] == i);
                assert forall|x: usize| x < i + 1 implies #[trigger] in_some_group(groups@, x) by {
                    if x == i {
                        assert(groups@[gl]@.contains(x));
                    } else {
                        assert(in_some_group(old_groups, x));
                        let g = choose|g: int| 0 <= g < old_groups.len() && old_groups[g]@.contains(x);
                        assert(groups@[g]@.contains(x));
                    }
                }
                assert forall|q: int| 0 <= q < n implies (#[trigger] seen@[q] <==> exists|j: int|
                    0 <= j < i + 1 && #[trigger] labels@[j] as int == q) by {
                    if q == r as int {
                        assert(labels@[i as int] as int == q);
                    }
                }
            }
        } else {
            proof {
                let w = choose|j: int| 0 <= j < i && #[trigger] labels@[j] as int == r as int;
                assert(in_some_group(groups@, w as usize));
                let g = choose|g: int| 0 <= g < groups@.len() && groups@[g]@.contains(w as usize);
                assert(groups@[g]@.contains(i));
                assert forall|x: usize| x < i + 1 implies #[trigger] in_some_group(groups@, x) by {
                    if x == i {
                        assert(groups@[g]@.contains(x));
                    }
                }
                assert forall|q: int| 0 <= q < n implies (#[trigger] seen@[q] <==> exists|j: int|
                    0 <= j < i + 1 && #[trigger] labels@[j] as int == q) by {
                    if q == r as int {
                        assert(labels@[w] as int == q);
                    }
                }
            }
        }
        i = i + 1;
    }
    proof {
        assert forall|g: int, x: int|
            0 <= g < groups@.len() && 0 <= x < groups@[g]@[0] implies !#[trigger] joined(
            pairs@,
            pairs@.len(),
            groups@[g]@[0] as int,
            x,
        ) by {
            assert(labels@[x] != labels@[groups@[g]@[0] as int]);
        }
    }
    groups
}

/// Joining is reflexive: every element is joined with itself.
pub proof fn law_joined_reflexive(pairs: Seq<(usize, usize)>, k: nat, i: int)
    ensures
        joined(pairs, k, i, i),
    decreases k,
{
    if k > 0 {
        law_joined_reflexive(pairs, (k - 1) as nat, i);
    }
}

/// Joining is symmetric.
pub proof fn law_joined_symmetric(pairs: Seq<(usize, usize)>, k: nat, i: int, j: int)
    requires
        joined(pairs, k, i, j),
    ensures
        joined(pairs, k, j, i),
    decreases k,
{
    if k > 0 {
        let km = (k - 1) as nat;
        let a = pairs[k - 1].0 as int;
        let b = pairs[k - 1].1 as int;
        if joined(pairs, km, i, j) {
            law_joined_symmetric(pairs, km, i, j);
        } else if joined(pairs, km, i, a) && joined(pairs, km, b, j) {
            law_joined_symmetric(pairs, km, i, a);
            law_joined_symmetric(pairs, km, b, j);
        } else {
            law_joined_symmetric(pairs, km, i, b);
            law_joined_symmetric(pairs, km, a, j);
        }
    }
}

/// Joining is transitive: with reflexivity and symmetry, it is an equivalence.
pub proof fn law_joined_transitive(pairs: Seq<(usize, usize)>, k: nat, i: int, j: int, l: int)
    requires
        joined(pairs, k, i, j),
        joined(pairs, k, j, l),
    ensures
        joined(pairs, k, i, l),
    decreases k,
{
    if k > 0 {
        let km = (k - 1) as nat;
        let a = pairs[k - 1].0 as int;
        let b = pairs[k - 1].1 as int;
        let ij = joined(pairs, km, i, j);
        let ij_ab = joined(pairs, km, i, a) && joined(pairs, km, b, j);
        let jl = joined(pairs, km, j, l);
        let jl_ab = joined(pairs, km, j, a) && joined(pairs, km, b, l);
        if ij && jl {
            law_joined_transitive(pairs, km, i, j, l);
        } else if ij && jl_ab {
            law_joined_transitive(pairs, km, i, j, a);
        } else if ij {
            law_joined_transitive(pairs, km, i, j, b);
        } else if ij_ab && jl {
            law_joined_transitive(pairs, km, b, j, l);
        } else if ij_ab && jl_ab {
        } else if ij_ab {
            law_joined_transitive(pairs, km, i, a, l);
        } else if jl {
            law_joined_transitive(pairs, km, a, j, l);
        } else if jl_ab {
            law_joined_transitive(pairs, km, i, b, l);
        } else {
        }
    }
}

/// Merging more pairs never separates elements already joined.
pub proof fn law_joined_monotone(pairs: Seq<(usize, usize)>, k: nat, m: nat, i: int, j: int)
    requires
        k <= m,
        joined(pairs, k, i, j),
    ensures
        joined(pairs, m, i, j),
    decreases m,
{
    if k < m {
        law_joined_monotone(pairs, k, (m - 1) as nat, i, j);
    }
}

/// The two elements of every pair end up joined: overlapping zones are merged.
pub proof fn law_pair_joined(pairs: Seq<(usize, usize)>, k: int)
    requires
        0 <= k < pairs.len(),
    ensures
        joined(pairs, pairs.len(), pairs[k].0 as int, pairs[k].1 as int),
{
    let a = pairs[k].0 as int;
    let b = pairs[k].1 as int;
    law_joined_reflexive(pairs, k as nat, a);
    law_joined_reflexive(pairs, k as nat, b);
    assert(joined(pairs, (k + 1) as nat, a, b));
    law_joined_monotone(pairs, (k + 1) as nat, pairs.len(), a, b);
}

/// Without any pair, every element stays alone: disjoint zones stay separate.
pub proof fn law_no_pairs_singletons(pairs: Seq<(usize, usize)>, i: int, j: int)
    requires
        pairs.len() == 0,
    ensures
        joined(pairs, pairs.len(), i, j) <==> i == j,
{
}

} // verus!
