//! In-memory cache of computed routes: entries live for one hour, and the cache
//! never holds more than 500 of them. Time is given by the caller as a count of
//! milliseconds on a monotonic clock.
use vstd::prelude::*;

verus! {

/// Lifetime of an entry, in milliseconds (one hour).
pub const TTL_MS: u64 = 3_600_000;

/// Largest number of entries the cache holds.
pub const MAX_ENTRIES: usize = 500;

/// One entry: key, value, and the instant at which it expires.
pub type CacheEntry<V> = (String, V, u64);

/// No two entries share a key.
pub open spec fn keys_distinct<V>(es: Seq<CacheEntry<V>>) -> bool {
    forall|i: int, j: int| 0 <= i < j < es.len() ==> (#[trigger] es[i]).0@ != (#[trigger] es[j]).0@
}

/// The entry still alive at `now`.
pub open spec fn alive<V>(now: u64) -> spec_fn(CacheEntry<V>) -> bool {
    |e: CacheEntry<V>| e.2 > now
}

/// Room is made before an insertion: when the cache is full, expired entries are
/// dropped, and if it is still full, the oldest entry is dropped too.
pub open spec fn evicted<V>(es: Seq<CacheEntry<V>>, now: u64) -> Seq<CacheEntry<V>> {
    if es.len() < MAX_ENTRIES {
        es
    } else {
        let kept = es.filter(alive(now));
        if kept.len() < MAX_ENTRIES {
            kept
        } else {
            kept.drop_first()
        }
    }
}

/// Some entry has key `k`.
pub open spec fn has_key<V>(es: Seq<CacheEntry<V>>, k: Seq<char>) -> bool {
    exists|i: int| 0 <= i < es.len() && (#[trigger] es[i]).0@ == k
}

/// The entries without the one of key `k`, if any.
pub open spec fn without_key<V>(es: Seq<CacheEntry<V>>, k: Seq<char>) -> Seq<CacheEntry<V>> {
    if has_key(es, k) {
        es.remove(choose|i: int| 0 <= i < es.len() && (#[trigger] es[i]).0@ == k)
    } else {
        es
    }
}

/// The entries after inserting `v` under `k` at `now`: room is made, an older
/// entry of the same key is replaced, and the new entry comes last.
pub open spec fn inserted<V>(es: Seq<CacheEntry<V>>, k: String, v: V, now: u64) -> Seq<
    CacheEntry<V>,
> {
    without_key(evicted(es, now), k@).push((k, v, (now + TTL_MS) as u64))
}

/// The value cached under `k` that is still alive at `now`.
pub open spec fn lookup<V>(es: Seq<CacheEntry<V>>, k: Seq<char>, now: u64) -> Option<V> {
    if exists|i: int| 0 <= i < es.len() && (#[trigger] es[i]).0@ == k && es[i].2 > now {
        Some(es[choose|i: int| 0 <= i < es.len() && (#[trigger] es[i]).0@ == k && es[i].2 > now].1)
    } else {
        None
    }
}

pub proof fn lemma_filter_subset<V>(es: Seq<CacheEntry<V>>, p: spec_fn(CacheEntry<V>) -> bool)
    requires
        keys_distinct(es),
    ensures
        keys_distinct(es.filter(p)),
        es.filter(p).len() <= es.len(),
        forall|i: int| 0 <= i < es.filter(p).len() ==> es.contains(#[trigger] es.filter(p)[i]),
        forall|i: int| 0 <= i < es.filter(p).len() ==> p(#[trigger] es.filter(p)[i]),
    decreases es.len(),
{
    reveal(Seq::filter);
    if es.len() > 0 {
        let init = es.drop_last();
        assert(keys_distinct(init));
        lemma_filter_subset(init, p);
        let f = init.filter(p);
        if p(es.last()) {
            assert forall|i: int| 0 <= i < f.len() implies f[i].0@ != es.last().0@ by {
                let j = choose|j: int| 0 <= j < init.len() && init[j] == f[i];
                assert(es[j] == init[j]);
            }
            assert forall|i: int| 0 <= i < es.filter(p).len() implies es.contains(
                #[trigger] es.filter(p)[i],
            ) by {
                if i < f.len() {
                    let j = choose|j: int| 0 <= j < init.len() && init[j] == f[i];
                    assert(es[j] == init[j]);
                } else {
                    assert(es[es.len() - 1] == es.last());
                }
            }
        } else {
            assert forall|i: int| 0 <= i < es.filter(p).len() implies es.contains(
                #[trigger] es.filter(p)[i],
            ) by {
                let j = choose|j: int| 0 <= j < init.len() && init[j] == f[i];
                assert(es[j] == init[j]);
            }
        }
    }
}

pub proof fn lemma_evicted<V>(es: Seq<CacheEntry<V>>, now: u64)
    requires
        keys_distinct(es),
        es.len() <= MAX_ENTRIES,
    ensures
        keys_distinct(evicted(es, now)),
        evicted(es, now).len() < MAX_ENTRIES,
        forall|i: int| 0 <= i < evicted(es, now).len() ==> es.contains(#[trigger] evicted(es, now)[i]),
{
    if es.len() >= MAX_ENTRIES {
        lemma_filter_subset(es, alive(now));
        let kept = es.filter(alive(now));
        if kept.len() >= MAX_ENTRIES {
            assert forall|i: int| 0 <= i < kept.drop_first().len() implies es.contains(
                #[trigger] kept.drop_first()[i],
            ) by {
                assert(kept.drop_first()[i] == kept[i + 1]);
            }
            assert forall|i: int, j: int|
                0 <= i < j < kept.drop_first().len() implies (#[trigger] kept.drop_first()[i]).0@
                != (#[trigger] kept.drop_first()[j]).0@ by {
                assert(kept.drop_first()[i] == kept[i + 1]);
                assert(kept.drop_first()[j] == kept[j + 1]);
            }
        }
    }
}

pub proof fn lemma_without_key<V>(es: Seq<CacheEntry<V>>, k: Seq<char>)
    requires
        keys_distinct(es),
    ensures
        keys_distinct(without_key(es, k)),
        !has_key(without_key(es, k), k),
        without_key(es, k).len() <= es.len(),
        forall|i: int|
            0 <= i < without_key(es, k).len() ==> es.contains(#[trigger] without_key(es, k)[i]),
{
    if has_key(es, k) {
        let i = choose|i: int| 0 <= i < es.len() && (#[trigger] es[i]).0@ == k;
        let r = es.remove(i);
        assert forall|a: int, b: int| 0 <= a < b < r.len() implies (#[trigger] r[a]).0@ != (
        #[trigger] r[b]).0@ by {
            let a2 = if a < i { a } else { a + 1 };
            let b2 = if b < i { b } else { b + 1 };
            assert(r[a] == es[a2]);
            assert(r[b] == es[b2]);
        }
        assert forall|j: int| 0 <= j < r.len() implies (#[trigger] r[j]).0@ != k by {
            let j2 = if j < i { j } else { j + 1 };
            assert(r[j] == es[j2]);
        }
        assert forall|j: int| 0 <= j < r.len() implies es.contains(#[trigger] r[j]) by {
            let j2 = if j < i { j } else { j + 1 };
            assert(r[j] == es[j2]);
        }
    } else {
        assert forall|j: int| 0 <= j < es.len() implies es.contains(#[trigger] es[j]) by {}
    }
}

/// A value inserted is read back under its key until it expires, one TTL later,
/// and no longer from then on.
pub proof fn law_read_your_write<V>(es: Seq<CacheEntry<V>>, k: String, v: V, now: u64, t: u64)
    requires
        keys_distinct(es),
        es.len() <= MAX_ENTRIES,
        now <= u64::MAX - TTL_MS,
    ensures
        lookup(inserted(es, k, v, now), k@, t) == if t < now + TTL_MS {
            Some(v)
        } else {
            None
        },
{
    lemma_inserted(es, k, v, now);
    let r = inserted(es, k, v, now);
    assert(r[r.len() - 1] == r.last());
    lemma_entry_for(r, r.last());
    lemma_lookup_entry(r, k@, t);
}

/// Every entry served is alive: an expired entry is never returned.
pub proof fn law_expired_never_served<V>(es: Seq<CacheEntry<V>>, k: Seq<char>, t: u64)
    requires
        lookup(es, k, t) is Some,
    ensures
        exists|i: int|
            0 <= i < es.len() && (#[trigger] es[i]).0@ == k && es[i].2 > t && es[i].1 == lookup(
                es,
                k,
                t,
            )->0,
{
}

/// Below capacity, inserting under one key leaves what is served under every
/// other key unchanged.
pub proof fn law_insert_keeps_other_keys<V>(
    es: Seq<CacheEntry<V>>,
    k: String,
    v: V,
    now: u64,
    k2: Seq<char>,
    t: u64,
)
    requires
        keys_distinct(es),
        es.len() < MAX_ENTRIES,
        k2 != k@,
    ensures
        lookup(inserted(es, k, v, now), k2, t) == lookup(es, k2, t),
{
    let w = without_key(es, k@);
    let r = inserted(es, k, v, now);
    lemma_without_key(es, k@);
    // the entries of `r` with key `k2` are those of `es`
    if exists|i: int| 0 <= i < es.len() && (#[trigger] es[i]).0@ == k2 && es[i].2 > t {
        let ie = choose|i: int| 0 <= i < es.len() && (#[trigger] es[i]).0@ == k2 && es[i].2 > t;
        // its position in `r`
        let ir: int = if has_key(es, k@) {
            let d = choose|i: int| 0 <= i < es.len() && (#[trigger] es[i]).0@ == k@;
            assert(ie != d);
            if ie < d {
                ie
            } else {
                ie - 1
            }
        } else {
            ie
        };
        assert(r[ir] == es[ie]);
        assert(r[ir].0@ == k2 && r[ir].2 > t);
        let cr = choose|i: int| 0 <= i < r.len() && (#[trigger] r[i]).0@ == k2 && r[i].2 > t;
        if cr != ir {
            assert(cr < r.len() - 1);
            assert(r[cr] == w[cr]);
            assert(r[ir] == w[ir]);
            if cr < ir {
                assert(w[cr].0@ != w[ir].0@);
            } else {
                assert(w[ir].0@ != w[cr].0@);
            }
        }
    } else {
        assert forall|i: int| 0 <= i < r.len() implies !((#[trigger] r[i]).0@ == k2 && r[i].2 > t) by {
            if i < r.len() - 1 {
                assert(r[i] == w[i]);
                assert(es.contains(w[i]));
            }
        }
    }
}

/// The entry of key `k`.
pub open spec fn entry_for<V>(es: Seq<CacheEntry<V>>, k: Seq<char>) -> CacheEntry<V> {
    es[choose|i: int| 0 <= i < es.len() && (#[trigger] es[i]).0@ == k]
}

/// An entry of a cache with distinct keys is the entry of its key.
pub proof fn lemma_entry_for<V>(es: Seq<CacheEntry<V>>, e: CacheEntry<V>)
    requires
        keys_distinct(es),
        es.contains(e),
    ensures
        has_key(es, e.0@),
        entry_for(es, e.0@) == e,
{
    let j = choose|j: int| 0 <= j < es.len() && es[j] == e;
    assert(es[j].0@ == e.0@);
    let c = choose|i: int| 0 <= i < es.len() && (#[trigger] es[i]).0@ == e.0@;
    if c < j {
        assert(es[c].0@ != es[j].0@);
    } else if j < c {
        assert(es[j].0@ != es[c].0@);
    }
}

/// What is served under `k`: the value of its entry while that entry is alive.
pub proof fn lemma_lookup_entry<V>(es: Seq<CacheEntry<V>>, k: Seq<char>, t: u64)
    requires
        keys_distinct(es),
    ensures
        lookup(es, k, t) == if has_key(es, k) {
            if entry_for(es, k).2 > t {
                Some(entry_for(es, k).1)
            } else {
                None
            }
        } else {
            None
        },
{
    if has_key(es, k) {
        let c = choose|i: int| 0 <= i < es.len() && (#[trigger] es[i]).0@ == k;
        if exists|i: int| 0 <= i < es.len() && (#[trigger] es[i]).0@ == k && es[i].2 > t {
            let a = choose|i: int| 0 <= i < es.len() && (#[trigger] es[i]).0@ == k && es[i].2 > t;
            if a < c {
                assert(es[a].0@ != es[c].0@);
            } else if c < a {
                assert(es[c].0@ != es[a].0@);
            }
        }
    }
}

/// Shape of the entries after an insertion: keys stay distinct, the cache stays
/// within capacity, the new entry comes last, and every other entry was already
/// there, under another key.
pub proof fn lemma_inserted<V>(es: Seq<CacheEntry<V>>, k: String, v: V, now: u64)
    requires
        keys_distinct(es),
        es.len() <= MAX_ENTRIES,
    ensures
        keys_distinct(inserted(es, k, v, now)),
        inserted(es, k, v, now).len() <= MAX_ENTRIES,
        inserted(es, k, v, now).last() == (k, v, (now + TTL_MS) as u64),
        forall|i: int|
            0 <= i < inserted(es, k, v, now).len() - 1 ==> es.contains(
                #[trigger] inserted(es, k, v, now)[i],
            ) && inserted(es, k, v, now)[i].0@ != k@,
{
    lemma_evicted(es, now);
    let ev = evicted(es, now);
    lemma_without_key(ev, k@);
    let w = without_key(ev, k@);
    let r = inserted(es, k, v, now);
    assert forall|a: int, b: int| 0 <= a < b < r.len() implies (#[trigger] r[a]).0@ != (
    #[trigger] r[b]).0@ by {
        assert(r[a] == w[a]);
        if b == r.len() - 1 {
            assert(w[a].0@ != k@);
        } else {
            assert(r[b] == w[b]);
        }
    }
    assert forall|i: int| 0 <= i < r.len() - 1 implies es.contains(#[trigger] r[i]) && r[i].0@
        != k@ by {
        assert(r[i] == w[i]);
        assert(ev.contains(w[i]));
        let j = choose|j: int| 0 <= j < ev.len() && ev[j] == w[i];
        assert(es.contains(ev[j]));
        assert(w[i].0@ != k@);
    }
}

/// Whatever the capacity, an insertion under one key leaves the entry of every
/// other key that is still there as it was, and so what is served under it.
pub proof fn law_insert_keeps_surviving_keys<V>(
    es: Seq<CacheEntry<V>>,
    k: String,
    v: V,
    now: u64,
    k2: Seq<char>,
    t: u64,
)
    requires
        keys_distinct(es),
        es.len() <= MAX_ENTRIES,
        k2 != k@,
        has_key(inserted(es, k, v, now), k2),
    ensures
        has_key(es, k2),
        entry_for(inserted(es, k, v, now), k2) == entry_for(es, k2),
        lookup(inserted(es, k, v, now), k2, t) == lookup(es, k2, t),
{
    lemma_inserted(es, k, v, now);
    let r = inserted(es, k, v, now);
    let c = choose|i: int| 0 <= i < r.len() && (#[trigger] r[i]).0@ == k2;
    assert(r[r.len() - 1] == r.last());
    assert(c != r.len() - 1);
    assert(es.contains(r[c]));
    assert(r.contains(r[c]));
    lemma_entry_for(r, r[c]);
    lemma_entry_for(es, r[c]);
    lemma_lookup_entry(r, k2, t);
    lemma_lookup_entry(es, k2, t);
}

/// The entries after a run of insertions `ops` (key, value, time), in order.
pub open spec fn after_inserts<V>(es: Seq<CacheEntry<V>>, ops: Seq<(String, V, u64)>) -> Seq<
    CacheEntry<V>,
>
    decreases ops.len(),
{
    if ops.len() == 0 {
        es
    } else {
        let o = ops.last();
        inserted(after_inserts(es, ops.drop_last()), o.0, o.1, o.2)
    }
}

/// A run of insertions under other keys keeps the cache well formed, and leaves
/// the entry of `k`, while it is still there, as it was.
pub proof fn lemma_after_inserts_keeps<V>(
    es: Seq<CacheEntry<V>>,
    ops: Seq<(String, V, u64)>,
    k: Seq<char>,
)
    requires
        keys_distinct(es),
        es.len() <= MAX_ENTRIES,
        forall|i: int| 0 <= i < ops.len() ==> (#[trigger] ops[i]).0@ != k,
    ensures
        keys_distinct(after_inserts(es, ops)),
        after_inserts(es, ops).len() <= MAX_ENTRIES,
        has_key(after_inserts(es, ops), k) ==> has_key(es, k) && entry_for(after_inserts(es, ops), k)
            == entry_for(es, k),
    decreases ops.len(),
{
    if ops.len() > 0 {
        let pre = ops.drop_last();
        assert forall|i: int| 0 <= i < pre.len() implies (#[trigger] pre[i]).0@ != k by {
            assert(pre[i] == ops[i]);
        }
        lemma_after_inserts_keeps(es, pre, k);
        let m = after_inserts(es, pre);
        let o = ops.last();
        assert(o == ops[ops.len() - 1]);
        lemma_inserted(m, o.0, o.1, o.2);
        if has_key(after_inserts(es, ops), k) {
            law_insert_keeps_surviving_keys(m, o.0, o.1, o.2, k, 0);
        }
    }
}

/// A value written under `k` at `t0` is read back at any later time `t` before
/// `t0 + TTL`, and no longer from then on, whatever was inserted under other keys
/// in between, as long as the entry was not evicted to make room.
pub proof fn law_read_after_other_inserts<V>(
    es: Seq<CacheEntry<V>>,
    k: String,
    v: V,
    t0: u64,
    ops: Seq<(String, V, u64)>,
    t: u64,
)
    requires
        keys_distinct(es),
        es.len() <= MAX_ENTRIES,
        t0 <= u64::MAX - TTL_MS,
        forall|i: int| 0 <= i < ops.len() ==> (#[trigger] ops[i]).0@ != k@,
        has_key(after_inserts(inserted(es, k, v, t0), ops), k@),
    ensures
        lookup(after_inserts(inserted(es, k, v, t0), ops), k@, t) == if t < t0 + TTL_MS {
            Some(v)
        } else {
            None
        },
{
    lemma_inserted(es, k, v, t0);
    let s1 = inserted(es, k, v, t0);
    assert(s1[s1.len() - 1] == s1.last());
    lemma_entry_for(s1, s1.last());
    lemma_after_inserts_keeps(s1, ops, k@);
    lemma_lookup_entry(after_inserts(s1, ops), k@, t);
}

/// Starting from an empty cache, a key never inserted is never served.
pub proof fn law_never_inserted_not_served<V>(ops: Seq<(String, V, u64)>, k: Seq<char>, t: u64)
    requires
        forall|i: int| 0 <= i < ops.len() ==> (#[trigger] ops[i]).0@ != k,
    ensures
        lookup(after_inserts(Seq::<CacheEntry<V>>::empty(), ops), k, t) is None,
{
    let e = Seq::<CacheEntry<V>>::empty();
    lemma_after_inserts_keeps(e, ops, k);
    lemma_lookup_entry(after_inserts(e, ops), k, t);
}

/// The cache.
pub struct RouteCache<V> {
    entries: Vec<CacheEntry<V>>,
}

impl<V> RouteCache<V> {
    /// The entries, oldest first.
    pub closed spec fn entries(&self) -> Seq<CacheEntry<V>> {
        self.entries@
    }

    /// Keys are distinct and the cache holds at most `MAX_ENTRIES` entries.
    pub open spec fn wf(&self) -> bool {
        &&& keys_distinct(self.entries())
        &&& self.entries().len() <= MAX_ENTRIES
    }

    /// An empty cache.
    pub fn new() -> (c: Self)
        ensures
            c.wf(),
            c.entries() == Seq::<CacheEntry<V>>::empty(),
    {
        RouteCache { entries: Vec::new() }
    }

    /// The value cached under `key`, unless it has expired at `now`.
    pub fn get(&self, key: &str, now: u64) -> (r: Option<&V>)
        requires
            self.wf(),
        ensures
            r is Some <==> lookup(self.entries(), key@, now) is Some,
            r matches Some(v) ==> *v == lookup(self.entries(), key@, now)->0,
    {
        let k = String::from_str(key);
        let mut i: usize = 0;
        while i < self.entries.len()
            invariant
                self.wf(),
                i <= self.entries@.len(),
                k@ == key@,
                forall|j: int|
                    0 <= j < i ==> !((#[trigger] self.entries@[j]).0@ == key@ && self.entries@[j].2
                        > now),
            decreases self.entries@.len() - i,
        {
            let e = &self.entries[i];
            if e.0 == k && e.2 > now {
                proof {
                    let c = choose|j: int|
                        0 <= j < self.entries@.len() && (#[trigger] self.entries@[j]).0@ == key@
                            && self.entries@[j].2 > now;
                    assert(self.entries@[i as int].0@ == key@);
                    if c != i {
                        assert(keys_distinct(self.entries@));
                        if c < i {
                            assert(self.entries@[c].0@ != self.entries@[i as int].0@);
                        } else {
                            assert(self.entries@[i as int].0@ != self.entries@[c].0@);
                        }
                    }
                }
                return Some(&e.1);
            }
            i = i + 1;
        }
        None
    }

    /// Caches `value` under `key` at `now`; it expires `TTL_MS` later.
    pub fn insert(&mut self, key: String, value: V, now: u64)
        requires
            old(self).wf(),
            now <= u64::MAX - TTL_MS,
        ensures
            final(self).wf(),
            final(self).entries() == inserted(old(self).entries(), key, value, now),
    {
        let ghost es0 = self.entries@;
        let mut room: Vec<CacheEntry<V>> = Vec::new();
        std::mem::swap(&mut room, &mut self.entries);
        if room.len() >= MAX_ENTRIES {
            let mut kept: Vec<CacheEntry<V>> = Vec::new();
            let ghost mut seen: Seq<CacheEntry<V>> = Seq::empty();
            assert(seen.filter(alive(now)) =~= Seq::<CacheEntry<V>>::empty()) by {
                reveal(Seq::filter);
            }
            for e in it: room.into_iter()
                invariant
                    seen == it.history(),
                    kept@ == seen.filter(alive(now)),
            {
                let ghost h = seen;
                let live = e.2 > now;
                proof {
                    reveal(Seq::filter);
                    assert(h.push(e).drop_last() =~= h);
                    seen = h.push(e);
                }
                if live {
                    kept.push(e);
                }
            }
            assert(seen =~= es0);
            assert(kept@ == es0.filter(alive(now)));
            if kept.len() >= MAX_ENTRIES {
                kept.remove(0);
                assert(kept@ =~= es0.filter(alive(now)).drop_first());
            }
            room = kept;
        }
        proof {
            lemma_evicted(es0, now);
        }
        assert(room@ == evicted(es0, now));
        let mut i: usize = 0;
        let mut found = false;
        while i < room.len() && !found
            invariant
                i <= room@.len(),
                found ==> i < room@.len() && room@[i as int].0@ == key@,
                !found ==> forall|j: int| 0 <= j < i ==> (#[trigger] room@[j]).0@ != key@,
            decreases room@.len() - i + if found { 0int } else { 1int },
        {
            if room[i].0 == key {
                found = true;
            } else {
                i = i + 1;
            }
        }
        let ghost ev = room@;
        if found {
            proof {
                let c = choose|j: int| 0 <= j < ev.len() && (#[trigger] ev[j]).0@ == key@;
                if c != i {
                    if c < i {
                        assert(ev[c].0@ != ev[i as int].0@);
                    } else {
                        assert(ev[i as int].0@ != ev[c].0@);
                    }
                }
            }
            room.remove(i);
        }
        assert(room@ == without_key(ev, key@));
        proof {
            lemma_without_key(ev, key@);
        }
        let ghost k = key;
        room.push((key, value, now + TTL_MS));
        proof {
            let r = room@;
            assert forall|a: int, b: int| 0 <= a < b < r.len() implies (#[trigger] r[a]).0@ != (
            #[trigger] r[b]).0@ by {
                if b == r.len() - 1 {
                    assert(!has_key(without_key(ev, key@), key@));
                    assert(r[a] == without_key(ev, key@)[a]);
                }
            }
        }
        self.entries = room;
    }

    /// Number of entries held, expired ones included.
    pub fn len(&self) -> (n: usize)
        ensures
            n == self.entries().len(),
    {
        self.entries.len()
    }

    /// Drops every entry.
    pub fn clear(&mut self)
        ensures
            final(self).wf(),
            final(self).entries() == Seq::<CacheEntry<V>>::empty(),
    {
        self.entries = Vec::new();
    }
}

} // verus!
