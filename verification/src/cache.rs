use vstd::prelude::*;

verus! {

/// Bound on resident entries in each vehicle-state cache.
pub const VEHICLE_CACHE_CAPACITY: usize = 2000;

/// Entries expire this many seconds after insertion, regardless of access.
pub const VEHICLE_CACHE_TTL_SECONDS: i64 = 300;

/// One resident entry: a key, its value, and the instant it was written.
#[derive(Clone, Copy, Debug)]
pub struct CacheEntry<V> {
    pub key: i32,
    pub value: V,
    pub inserted_at: i64,
}

/// A bounded key-value cache whose entries expire a fixed time after they
/// were written. The clock is a caller-supplied non-negative instant, so
/// freshness is decided by plain arithmetic. A miss is not an error: it
/// tells the caller to fall back to the durable store.
#[derive(Debug)]
pub struct TtlCache<V> {
    entries: Vec<CacheEntry<V>>,
    capacity: usize,
    ttl: i64,
}

impl<V> TtlCache<V> {
    /// The resident entries, in insertion order of their keys.
    pub closed spec fn entries_seq(self) -> Seq<CacheEntry<V>> {
        self.entries@
    }

    /// The bound on resident entries.
    pub closed spec fn spec_capacity(self) -> int {
        self.capacity as int
    }

    /// Seconds an entry stays alive after it was written.
    pub closed spec fn spec_ttl(self) -> int {
        self.ttl as int
    }

    pub open spec fn wf(self) -> bool {
        &&& self.spec_capacity() >= 1
        &&& self.spec_ttl() >= 1
        &&& self.entries_seq().len() <= self.spec_capacity()
        &&& forall|i: int|
            0 <= i < self.entries_seq().len() ==> (#[trigger] self.entries_seq()[i]).inserted_at
                >= 0
        &&& forall|i: int, j: int|
            0 <= i < self.entries_seq().len() && 0 <= j < self.entries_seq().len()
                && (#[trigger] self.entries_seq()[i]).key == (#[trigger] self.entries_seq()[j]).key
                ==> i == j
    }

    /// Some entry for this key is resident, fresh or expired.
    pub open spec fn spec_contains(self, key: i32) -> bool {
        exists|i: int|
            0 <= i < self.entries_seq().len() && (#[trigger] self.entries_seq()[i]).key == key
    }

    /// The resident entry for `key`, expired or not.
    pub open spec fn spec_lookup(self, key: i32) -> Option<CacheEntry<V>> {
        if self.spec_contains(key) {
            Option::Some(
                self.entries_seq()[choose|i: int|
                    0 <= i < self.entries_seq().len() && (#[trigger] self.entries_seq()[i]).key
                        == key],
            )
        } else {
            Option::None
        }
    }

    /// An entry written at `t` is still alive at `now`.
    pub open spec fn fresh_at(self, t: int, now: int) -> bool {
        now < t + self.spec_ttl()
    }

    /// What `get` observes at `now`: the resident value while alive,
    /// nothing once the TTL has elapsed or no entry is resident.
    pub open spec fn spec_get(self, key: i32, now: i64) -> Option<V> {
        match self.spec_lookup(key) {
            Option::Some(e) => if self.fresh_at(e.inserted_at as int, now as int) {
                Option::Some(e.value)
            } else {
                Option::None
            },
            Option::None => Option::None,
        }
    }
}

impl<V: Copy> TtlCache<V> {
    /// An empty cache holding at most `capacity` entries, each alive for
    /// `ttl_seconds` after it is written.
    pub fn new(capacity: usize, ttl_seconds: i64) -> (c: TtlCache<V>)
        requires
            capacity >= 1,
            ttl_seconds >= 1,
        ensures
            c.wf(),
            c.entries_seq() === Seq::<CacheEntry<V>>::empty(),
            c.spec_capacity() == capacity,
            c.spec_ttl() == ttl_seconds,
    {
        TtlCache { entries: Vec::new(), capacity, ttl: ttl_seconds }
    }

    /// Number of resident entries, expired ones included.
    pub fn len(&self) -> (n: usize)
        ensures
            n == self.entries_seq().len(),
    {
        self.entries.len()
    }

    /// A hit returns the cached value at once; a miss or an expired entry
    /// returns nothing, telling the caller to consult the durable store.
    pub fn get(&self, key: i32, now: i64) -> (r: Option<V>)
        requires
            self.wf(),
            now >= 0,
        ensures
            r == self.spec_get(key, now),
    {
        let n = self.entries.len();
        let mut i: usize = 0;
        while i < n
            invariant
                self.wf(),
                now >= 0,
                self.entries_seq() == self.entries@,
                n == self.entries@.len(),
                i <= n,
                forall|m: int| 0 <= m < i ==> (#[trigger] self.entries@[m]).key != key,
            decreases n - i,
        {
            let e = self.entries[i];
            if e.key == key {
                proof {
                    assert(self.entries_seq() == self.entries@);
                    assert(self.entries_seq()[i as int].key == key);
                    assert(self.spec_contains(key));
                    let j = choose|j: int|
                        0 <= j < self.entries_seq().len() && (#[trigger] self.entries_seq()[j]).key
                            == key;
                    assert(j == i as int);
                    assert(self.spec_lookup(key) == Option::Some(self.entries_seq()[i as int]));
                }
                if now - e.inserted_at < self.ttl {
                    return Some(e.value);
                } else {
                    return None;
                }
            }
            i += 1;
        }
        proof {
            assert(self.entries_seq() == self.entries@);
            assert(!self.spec_contains(key));
        }
        None
    }

    /// Unconditional insert or overwrite, restarting the expiration clock
    /// for the key. Used after a successful durable write so the cache
    /// reflects the latest truth at once. When the cache is full and the
    /// key is new, the stalest entry makes room; only the capacity bound
    /// and the fate of the written key are contractual.
    pub fn set(&mut self, key: i32, value: V, now: i64)
        requires
            old(self).wf(),
            now >= 0,
        ensures
            final(self).wf(),
            final(self).spec_capacity() == old(self).spec_capacity(),
            final(self).spec_ttl() == old(self).spec_ttl(),
            final(self).spec_lookup(key) == Option::Some(
                CacheEntry { key, value, inserted_at: now },
            ),
            forall|k2: i32|
                k2 != key ==> #[trigger] final(self).spec_lookup(k2) == old(self).spec_lookup(k2)
                    || final(self).spec_lookup(k2) == Option::<CacheEntry<V>>::None,
            (old(self).spec_contains(key) || old(self).entries_seq().len() < old(
                self,
            ).spec_capacity()) ==> forall|k2: i32|
                k2 != key ==> #[trigger] final(self).spec_lookup(k2) == old(self).spec_lookup(k2),
    {
        let fresh_entry = CacheEntry { key, value, inserted_at: now };
        let n = self.entries.len();
        let mut i: usize = 0;
        while i < n
            invariant
                old(self).wf(),
                now >= 0,
                fresh_entry == (CacheEntry { key, value, inserted_at: now }),
                n == self.entries@.len(),
                i <= n,
                forall|m: int| 0 <= m < i ==> (#[trigger] self.entries@[m]).key != key,
                self == old(self),
            decreases n - i,
        {
            if self.entries[i].key == key {
                proof {
                    assert(old(self).entries_seq() == old(self).entries@);
                    assert(old(self).entries_seq()[i as int].key == key);
                    assert(old(self).spec_contains(key));
                }
                self.entries[i] = fresh_entry;
                proof {
                    let s0 = old(self).entries_seq();
                    let s = self.entries_seq();
                    assert(s0 == old(self).entries@);
                    assert(s == self.entries@);
                    assert(s == s0.update(i as int, fresh_entry));
                    assert(s[i as int] == fresh_entry);
                    assert(forall|m: int| 0 <= m < s.len() && m != i ==> s[m] == s0[m]);
                    assert forall|m: int| 0 <= m < s.len() implies (#[trigger] s[m]).inserted_at
                        >= 0 by {
                        if m != i as int {
                            assert(s[m] == s0[m]);
                        }
                    }
                    assert forall|m: int, l: int|
                        0 <= m < s.len() && 0 <= l < s.len() && (#[trigger] s[m]).key == (
                        #[trigger] s[l]).key implies m == l by {
                        assert(s[m].key == s0[m].key);
                        assert(s[l].key == s0[l].key);
                    }
                    assert(self.spec_contains(key));
                    let j = choose|j: int|
                        0 <= j < s.len() && (#[trigger] self.entries_seq()[j]).key == key;
                    assert(j == i as int);
                    assert(self.spec_lookup(key) == Option::Some(fresh_entry));
                    assert forall|k2: i32| k2 != key implies #[trigger] self.spec_lookup(k2)
                        == old(self).spec_lookup(k2) by {
                        lemma_lookup_same_entries(*old(self), *self, k2);
                    }
                }
                return ;
            }
            i += 1;
        }
        proof {
            assert(old(self).entries_seq() == old(self).entries@);
            assert(!old(self).spec_contains(key));
        }
        let ghost s0 = old(self).entries_seq();
        let ghost mut evicted: Option<int> = Option::None;
        if self.entries.len() == self.capacity {
            let victim = self.stalest_index();
            self.entries.remove(victim);
            proof {
                evicted = Option::Some(victim as int);
                s0.remove_ensures(victim as int);
                assert(self.entries_seq() == self.entries@);
                assert(self.entries_seq() == s0.remove(victim as int));
            }
        }
        let ghost mid = self.entries_seq();
        proof {
            assert(match evicted {
                Option::None => mid == s0,
                Option::Some(v) => 0 <= v < s0.len() && mid == s0.remove(v),
            });
            assert forall|m: int| 0 <= m < mid.len() implies (#[trigger] mid[m]).key != key by {
                lemma_removed_entry_in_old(s0, mid, evicted, m);
            }
            assert forall|m: int| 0 <= m < mid.len() implies (#[trigger] mid[m]).inserted_at
                >= 0 by {
                lemma_removed_entry_in_old(s0, mid, evicted, m);
            }
            assert(mid.len() < old(self).spec_capacity());
        }
        self.entries.push(fresh_entry);
        proof {
            let s = self.entries_seq();
            assert(s == self.entries@);
            assert(s == mid.push(fresh_entry));
            assert(forall|m: int| 0 <= m < mid.len() ==> s[m] == mid[m]);
            assert(s[s.len() - 1] == fresh_entry);
            assert forall|m: int, l: int|
                0 <= m < s.len() && 0 <= l < s.len() && (#[trigger] s[m]).key == (
                #[trigger] s[l]).key implies m == l by {
                if m < mid.len() && l < mid.len() {
                    lemma_removed_unique(s0, mid, evicted, m, l);
                } else if m < mid.len() {
                    assert(mid[m].key != key);
                } else if l < mid.len() {
                    assert(mid[l].key != key);
                }
            }
            assert forall|m: int| 0 <= m < s.len() implies (#[trigger] s[m]).inserted_at >= 0 by {
                if m < mid.len() {
                    assert(s[m] == mid[m]);
                }
            }
            assert(self.wf());
            assert(s[s.len() - 1].key == key);
            assert(self.spec_contains(key));
            let j = choose|j: int|
                0 <= j < s.len() && (#[trigger] self.entries_seq()[j]).key == key;
            assert(j == s.len() - 1);
            assert(self.spec_lookup(key) == Option::Some(fresh_entry));
            assert forall|k2: i32| k2 != key implies #[trigger] self.spec_lookup(k2) == old(
                self,
            ).spec_lookup(k2) || self.spec_lookup(k2) == Option::<CacheEntry<V>>::None by {
                if self.spec_contains(k2) {
                    let j2 = choose|j2: int|
                        0 <= j2 < s.len() && (#[trigger] self.entries_seq()[j2]).key == k2;
                    assert(s[j2].key == k2);
                    assert(j2 < mid.len());
                    assert(s[j2] == mid[j2]);
                    lemma_removed_entry_in_old(s0, mid, evicted, j2);
                    let m0 = choose|m0: int| 0 <= m0 < s0.len() && #[trigger] s0[m0] == mid[j2];
                    assert(old(self).spec_contains(k2));
                    let i_star = choose|i_star: int|
                        0 <= i_star < s0.len() && (#[trigger] old(self).entries_seq()[
                        i_star]).key == k2;
                    assert(s0[i_star].key == s0[m0].key);
                    assert(i_star == m0);
                    assert(old(self).spec_lookup(k2) == Option::Some(s0[m0]));
                    assert(self.spec_lookup(k2) == Option::Some(s[j2]));
                }
            }
            if old(self).spec_contains(key) || old(self).entries_seq().len() < old(
                self,
            ).spec_capacity() {
                assert(evicted == Option::<int>::None);
                assert(mid == s0);
                assert forall|k2: i32| k2 != key implies #[trigger] self.spec_lookup(k2) == old(
                    self,
                ).spec_lookup(k2) by {
                    if old(self).spec_contains(k2) {
                        let i0 = choose|i0: int|
                            0 <= i0 < s0.len() && (#[trigger] old(self).entries_seq()[i0]).key
                                == k2;
                        assert(s[i0] == mid[i0]);
                        assert(mid[i0] == s0[i0]);
                        assert(self.spec_contains(k2));
                    }
                    if self.spec_contains(k2) {
                        let j2 = choose|j2: int|
                            0 <= j2 < s.len() && (#[trigger] self.entries_seq()[j2]).key == k2;
                        assert(j2 < mid.len());
                        assert(s0[j2] == s[j2]);
                        assert(old(self).spec_contains(k2));
                    }
                }
            }
        }
    }

    /// Index of the entry with the least insertion instant: the stalest
    /// resident entry, evicted first under capacity pressure.
    fn stalest_index(&self) -> (idx: usize)
        requires
            self.entries_seq().len() >= 1,
        ensures
            0 <= idx < self.entries_seq().len(),
    {
        let n = self.entries.len();
        let mut idx: usize = 0;
        let mut i: usize = 1;
        while i < n
            invariant
                n == self.entries@.len(),
                1 <= i <= n || (n == 0 && i == 1),
                idx < n || n == 0,
                n >= 1 ==> idx < i,
            decreases n - i,
        {
            if self.entries[i].inserted_at < self.entries[idx].inserted_at {
                idx = i;
            }
            i += 1;
        }
        idx
    }

    /// Cache-first read: a fresh entry answers at once; on a miss the value
    /// just read from the durable store is written, stamped `now`, and
    /// handed back, so the successful fallback repopulates the cache.
    pub fn get_or_insert(&mut self, key: i32, loaded: V, now: i64) -> (r: V)
        requires
            old(self).wf(),
            now >= 0,
        ensures
            final(self).wf(),
            final(self).spec_capacity() == old(self).spec_capacity(),
            final(self).spec_ttl() == old(self).spec_ttl(),
            (match old(self).spec_get(key, now) {
                Option::Some(v) => r == v && *final(self) == *old(self),
                Option::None => r == loaded && final(self).spec_lookup(key) == Option::Some(
                    CacheEntry { key, value: loaded, inserted_at: now },
                ) && forall|k2: i32|
                    k2 != key ==> #[trigger] final(self).spec_lookup(k2) == old(self).spec_lookup(
                        k2,
                    ) || final(self).spec_lookup(k2) == Option::<CacheEntry<V>>::None,
            }),
    {
        match self.get(key, now) {
            Some(v) => v,
            None => {
                self.set(key, loaded, now);
                loaded
            },
        }
    }
}

proof fn lemma_lookup_same_entries<V>(c0: TtlCache<V>, c1: TtlCache<V>, k2: i32)
    requires
        c0.entries_seq().len() == c1.entries_seq().len(),
        forall|i: int, j: int|
            0 <= i < c0.entries_seq().len() && 0 <= j < c0.entries_seq().len()
                && (#[trigger] c0.entries_seq()[i]).key == (#[trigger] c0.entries_seq()[j]).key
                ==> i == j,
        forall|m: int|
            0 <= m < c0.entries_seq().len() ==> (#[trigger] c1.entries_seq()[m]).key
                == c0.entries_seq()[m].key && (c0.entries_seq()[m].key == k2
                ==> c1.entries_seq()[m] == c0.entries_seq()[m]),
    ensures
        c1.spec_lookup(k2) == c0.spec_lookup(k2),
{
    if c0.spec_contains(k2) {
        let i0 = choose|i0: int|
            0 <= i0 < c0.entries_seq().len() && (#[trigger] c0.entries_seq()[i0]).key == k2;
        assert(c1.entries_seq()[i0].key == k2);
        assert(c1.spec_contains(k2));
        let i1 = choose|i1: int|
            0 <= i1 < c1.entries_seq().len() && (#[trigger] c1.entries_seq()[i1]).key == k2;
        assert(c0.entries_seq()[i1].key == k2);
        assert(i0 == i1);
        assert(c1.entries_seq()[i1] == c0.entries_seq()[i0]);
    } else {
        if c1.spec_contains(k2) {
            let i1 = choose|i1: int|
                0 <= i1 < c1.entries_seq().len() && (#[trigger] c1.entries_seq()[i1]).key == k2;
            assert(c0.entries_seq()[i1].key == k2);
            assert(c0.spec_contains(k2));
        }
    }
}

proof fn lemma_removed_unique<V>(
    s0: Seq<CacheEntry<V>>,
    mid: Seq<CacheEntry<V>>,
    evicted: Option<int>,
    m: int,
    l: int,
)
    requires
        match evicted {
            Option::None => mid == s0,
            Option::Some(v) => 0 <= v < s0.len() && mid == s0.remove(v),
        },
        forall|i: int, j: int|
            0 <= i < s0.len() && 0 <= j < s0.len() && (#[trigger] s0[i]).key == (
            #[trigger] s0[j]).key ==> i == j,
        0 <= m < mid.len(),
        0 <= l < mid.len(),
        mid[m].key == mid[l].key,
    ensures
        m == l,
{
    match evicted {
        Option::None => {
            assert(s0[m].key == s0[l].key);
        },
        Option::Some(v) => {
            s0.remove_ensures(v);
            let m0 = if m < v {
                m
            } else {
                m + 1
            };
            let l0 = if l < v {
                l
            } else {
                l + 1
            };
            assert(mid[m] == s0[m0]);
            assert(mid[l] == s0[l0]);
        },
    }
}

proof fn lemma_removed_entry_in_old<V>(
    s0: Seq<CacheEntry<V>>,
    mid: Seq<CacheEntry<V>>,
    evicted: Option<int>,
    j: int,
)
    requires
        match evicted {
            Option::None => mid == s0,
            Option::Some(v) => 0 <= v < s0.len() && mid == s0.remove(v),
        },
        0 <= j < mid.len(),
    ensures
        exists|m0: int| 0 <= m0 < s0.len() && #[trigger] s0[m0] == mid[j],
{
    match evicted {
        Option::None => {
            assert(s0[j] == mid[j]);
        },
        Option::Some(v) => {
            s0.remove_ensures(v);
            if j < v {
                assert(s0[j] == mid[j]);
            } else {
                assert(s0[j + 1] == mid[j]);
            }
        },
    }
}

/// Law: a `set` followed at the same instant by a `get` of the same key
/// returns exactly the value that was set.
pub proof fn lemma_set_then_get<V>(c: TtlCache<V>, key: i32, value: V, now: i64)
    requires
        c.wf(),
        now >= 0,
        c.spec_lookup(key) == Option::Some(CacheEntry { key, value, inserted_at: now }),
    ensures
        c.spec_get(key, now) == Option::Some(value),
{
}

/// Law: once the TTL has elapsed since the resident entry for a key was
/// written, a `get` of that key observes nothing, without further writes.
pub proof fn lemma_expired_get_none<V>(c: TtlCache<V>, key: i32, later: i64)
    requires
        c.wf(),
        match c.spec_lookup(key) {
            Option::Some(e) => later >= e.inserted_at + c.spec_ttl(),
            Option::None => true,
        },
    ensures
        c.spec_get(key, later) == Option::<V>::None,
{
}

} // verus!
