//! The cache itself: a mapping from string keys to values with absolute
//! expiration instants, and the operations that read, write, renew and sweep
//! it.
//!
//! Time is a `u64` tick count chosen by the caller (the intended source is a
//! monotonic clock). An entry is *live* at instant `now` when
//! `now < expires_at`, and *stale* otherwise; stale entries are treated as
//! absent by reads but are only removed by the explicit removal operations.

use vstd::prelude::*;

verus! {

/// The absolute expiration instant of an entry written at `now` with time to
/// live `ttl`: the saturating sum `now + ttl`.
pub open spec fn expiry(now: u64, ttl: u64) -> u64 {
    if now + ttl <= u64::MAX {
        (now + ttl) as u64
    } else {
        u64::MAX
    }
}

/// What a read of `k` at instant `now` yields on the abstract store `m`:
/// the stored value if the entry exists and is still live, absent otherwise.
pub open spec fn spec_get<V>(m: Map<Seq<char>, (V, u64)>, k: Seq<char>, now: u64) -> Option<V> {
    if m.contains_key(k) && now < m[k].1 {
        Some(m[k].0)
    } else {
        None
    }
}

/// The abstract store after writing `v` under `k` at instant `now` with time
/// to live `ttl`: any prior entry for `k` is overwritten.
pub open spec fn spec_set<V>(
    m: Map<Seq<char>, (V, u64)>,
    k: Seq<char>,
    v: V,
    ttl: u64,
    now: u64,
) -> Map<Seq<char>, (V, u64)> {
    m.insert(k, (v, expiry(now, ttl)))
}

/// The result and the store after a conditional insertion: a live entry is
/// returned untouched; otherwise `v` is inserted and returned.
pub open spec fn spec_get_or_set<V>(
    m: Map<Seq<char>, (V, u64)>,
    k: Seq<char>,
    v: V,
    ttl: u64,
    now: u64,
) -> (V, Map<Seq<char>, (V, u64)>) {
    match spec_get(m, k, now) {
        Some(v0) => (v0, m),
        None => (v, spec_set(m, k, v, ttl, now)),
    }
}

/// The result and the store after removing `k` at instant `now`: the entry is
/// always removed, but the value comes back only if it was still live.
pub open spec fn spec_expire<V>(m: Map<Seq<char>, (V, u64)>, k: Seq<char>, now: u64) -> (
    Option<V>,
    Map<Seq<char>, (V, u64)>,
) {
    (spec_get(m, k, now), m.remove(k))
}

/// The abstract store after a sweep at instant `now`: exactly the live
/// entries remain, unchanged.
pub open spec fn spec_expire_all<V>(m: Map<Seq<char>, (V, u64)>, now: u64) -> Map<
    Seq<char>,
    (V, u64),
> {
    Map::new(|k: Seq<char>| m.contains_key(k) && now < m[k].1, |k: Seq<char>| m[k])
}

/// The result and the store after renewing `k` at instant `now`: an existing
/// entry (live or stale) keeps its value and gets the fresh expiration
/// instant; a missing key leaves the store unchanged.
pub open spec fn spec_refresh<V>(
    m: Map<Seq<char>, (V, u64)>,
    k: Seq<char>,
    ttl: u64,
    now: u64,
) -> (bool, Map<Seq<char>, (V, u64)>) {
    if m.contains_key(k) {
        (true, m.insert(k, (m[k].0, expiry(now, ttl))))
    } else {
        (false, m)
    }
}

/// One stored entry: its key, its payload, and its absolute expiration
/// instant.
struct Entry<V> {
    key: String,
    value: V,
    expires_at: u64,
}

/// The cache. Its view is the abstract store: a finite map from key
/// characters to `(value, expires_at)` pairs.
pub struct Cache<V> {
    entries: Vec<Entry<V>>,
}

impl<V> Cache<V> {
    /// The abstract store that a sequence of entries denotes; a later entry
    /// for the same key wins (the invariant rules repeated keys out).
    spec fn as_map_of(s: Seq<Entry<V>>) -> Map<Seq<char>, (V, u64)>
        decreases s.len(),
    {
        if s.len() == 0 {
            Map::empty()
        } else {
            Self::as_map_of(s.drop_last()).insert(
                s.last().key@,
                (s.last().value, s.last().expires_at),
            )
        }
    }

    /// No two stored entries share a key.
    spec fn uniq_keys(s: Seq<Entry<V>>) -> bool {
        forall|i: int, j: int|
            0 <= i < j < s.len() ==> (#[trigger] s[i]).key@ != (#[trigger] s[j]).key@
    }

    #[verifier::type_invariant]
    spec fn wf(self) -> bool {
        Self::uniq_keys(self.entries@)
    }

    /// A key is in the abstract store exactly when some entry carries it.
    proof fn lemma_as_map_contains(s: Seq<Entry<V>>, k: Seq<char>)
        ensures
            Self::as_map_of(s).contains_key(k) <==> exists|i: int|
                0 <= i < s.len() && (#[trigger] s[i]).key@ == k,
        decreases s.len(),
    {
        if s.len() > 0 {
            Self::lemma_as_map_contains(s.drop_last(), k);
            if Self::as_map_of(s).contains_key(k) {
                if k == s.last().key@ {
                    assert(s[s.len() - 1].key@ == k);
                } else {
                    let i = choose|i: int| 0 <= i < s.drop_last().len() && (#[trigger] s.drop_last()[i]).key@ == k;
                    assert(s[i].key@ == k);
                }
            }
            if exists|i: int| 0 <= i < s.len() && (#[trigger] s[i]).key@ == k {
                let i = choose|i: int| 0 <= i < s.len() && (#[trigger] s[i]).key@ == k;
                if i < s.len() - 1 {
                    assert(s.drop_last()[i].key@ == k);
                }
            }
        }
    }

    /// Under unique keys, the entry at index `i` is what the abstract store
    /// holds for its key.
    proof fn lemma_as_map_at(s: Seq<Entry<V>>, i: int)
        requires
            Self::uniq_keys(s),
            0 <= i < s.len(),
        ensures
            Self::as_map_of(s).contains_key(s[i].key@),
            Self::as_map_of(s)[s[i].key@] == (s[i].value, s[i].expires_at),
        decreases s.len(),
    {
        if i < s.len() - 1 {
            Self::lemma_as_map_at(s.drop_last(), i);
            assert(s.drop_last()[i] == s[i]);
            assert(s[i].key@ != s.last().key@);
        }
    }

    /// Appending an entry inserts it into the abstract store.
    proof fn lemma_as_map_push(s: Seq<Entry<V>>, e: Entry<V>)
        ensures
            Self::as_map_of(s.push(e)) == Self::as_map_of(s).insert(e.key@, (e.value, e.expires_at)),
    {
        assert(s.push(e).drop_last() =~= s);
        assert(s.push(e).last() == e);
    }

    /// Under unique keys, removing the entry at index `i` removes its key
    /// from the abstract store.
    proof fn lemma_as_map_remove(s: Seq<Entry<V>>, i: int)
        requires
            Self::uniq_keys(s),
            0 <= i < s.len(),
        ensures
            Self::as_map_of(s.remove(i)) == Self::as_map_of(s).remove(s[i].key@),
        decreases s.len(),
    {
        let k = s[i].key@;
        if i == s.len() - 1 {
            assert(s.remove(i) =~= s.drop_last());
            Self::lemma_as_map_contains(s.drop_last(), k);
            assert(forall|j: int| 0 <= j < s.drop_last().len() ==> (#[trigger] s.drop_last()[j]).key@ != k);
            assert(Self::as_map_of(s.drop_last()) =~= Self::as_map_of(s).remove(k));
        } else {
            Self::lemma_as_map_remove(s.drop_last(), i);
            assert(s.remove(i).drop_last() =~= s.drop_last().remove(i));
            assert(s.remove(i).last() == s.last());
            assert(s.drop_last()[i] == s[i]);
            assert(Self::as_map_of(s.remove(i)) == Self::as_map_of(s.drop_last().remove(i)).insert(
                s.last().key@,
                (s.last().value, s.last().expires_at),
            ));
            assert(s[i].key@ != s.last().key@);
            assert(Self::as_map_of(s.drop_last()).remove(k).insert(
                s.last().key@,
                (s.last().value, s.last().expires_at),
            ) =~= Self::as_map_of(s).remove(k));
        }
    }

    /// Under unique keys, the abstract store is finite and has one element
    /// per entry.
    proof fn lemma_as_map_len(s: Seq<Entry<V>>)
        requires
            Self::uniq_keys(s),
        ensures
            Self::as_map_of(s).dom().finite(),
            Self::as_map_of(s).len() == s.len(),
        decreases s.len(),
    {
        if s.len() > 0 {
            Self::lemma_as_map_len(s.drop_last());
            Self::lemma_as_map_contains(s.drop_last(), s.last().key@);
            assert(forall|j: int| 0 <= j < s.drop_last().len() ==> (#[trigger] s.drop_last()[j]).key@ != s.last().key@);
        }
    }
}

impl<V> View for Cache<V> {
    type V = Map<Seq<char>, (V, u64)>;

    closed spec fn view(&self) -> Map<Seq<char>, (V, u64)> {
        Cache::<V>::as_map_of(self.entries@)
    }
}

/// The expiration instant `now + ttl`, saturating at the largest
/// representable instant.
fn compute_expiry(now: u64, ttl: u64) -> (r: u64)
    ensures
        r == expiry(now, ttl),
{
    if ttl <= u64::MAX - now {
        now + ttl
    } else {
        u64::MAX
    }
}

impl<V: Clone> Cache<V> {
    /// An empty cache.
    pub fn new() -> (c: Self)
        ensures
            c@ == Map::<Seq<char>, (V, u64)>::empty(),
    {
        Cache { entries: Vec::new() }
    }

    /// The index of the entry carrying `key`, if one exists.
    fn position_of(entries: &Vec<Entry<V>>, key: &String) -> (r: Option<usize>)
        ensures
            match r {
                Some(i) => i < entries@.len() && entries@[i as int].key@ == key@,
                None => forall|j: int|
                    0 <= j < entries@.len() ==> (#[trigger] entries@[j]).key@ != key@,
            },
    {
        let mut i: usize = 0;
        while i < entries.len()
            invariant
                i <= entries@.len(),
                forall|j: int| 0 <= j < i ==> (#[trigger] entries@[j]).key@ != key@,
            decreases entries@.len() - i,
        {
            if entries[i].key == *key {
                return Some(i);
            }
            i += 1;
        }
        None
    }

    /// Inserts or overwrites the entry for `key` with `value`, expiring at
    /// `now + ttl` (saturating); any prior entry for `key` is discarded.
    pub fn set(&mut self, key: String, value: V, ttl: u64, now: u64)
        ensures
            final(self)@ == spec_set(old(self)@, key@, value, ttl, now),
    {
        proof {
            use_type_invariant(&*self);
        }
        let exp = compute_expiry(now, ttl);
        let mut entries: Vec<Entry<V>> = Vec::new();
        std::mem::swap(&mut entries, &mut self.entries);
        let ghost s0: Seq<Entry<V>> = entries@;
        match Self::position_of(&entries, &key) {
            Some(i) => {
                proof {
                    Self::lemma_as_map_remove(s0, i as int);
                }
                entries.remove(i);
                proof {
                    assert(forall|j: int|
                        0 <= j < s0.len() && j != i ==> (#[trigger] s0[j]).key@ != key@);
                    assert(forall|j: int|
                        0 <= j < entries@.len() ==> (#[trigger] entries@[j]).key@ != key@);
                    assert(Self::uniq_keys(entries@));
                }
            },
            None => {
                proof {
                    Self::lemma_as_map_contains(s0, key@);
                    assert(Self::as_map_of(s0) =~= Self::as_map_of(s0).remove(key@));
                }
            },
        }
        let ghost s1: Seq<Entry<V>> = entries@;
        let ghost kview: Seq<char> = key@;
        entries.push(Entry { key, value, expires_at: exp });
        proof {
            assert(entries@ == s1.push(entries@.last()));
            Self::lemma_as_map_push(s1, entries@.last());
            assert(Self::uniq_keys(entries@));
            assert(Self::as_map_of(entries@) =~= spec_set(
                Self::as_map_of(s0),
                kview,
                entries@.last().value,
                ttl,
                now,
            ));
        }
        self.entries = entries;
    }

    /// Returns a copy of the value stored under `key` if that entry is live
    /// at `now`; a stale or missing entry yields nothing, and the cache is
    /// never changed (stale entries are not evicted by reads).
    pub fn get(&self, key: &str, now: u64) -> (r: Option<V>)
        ensures
            (match (r, spec_get(self@, key@, now)) {
                (Some(rv), Some(gv)) => cloned::<V>(gv, rv),
                (None, None) => true,
                _ => false,
            }),
    {
        proof {
            use_type_invariant(self);
        }
        let k = key.to_owned();
        match Self::position_of(&self.entries, &k) {
            Some(i) => {
                proof {
                    Self::lemma_as_map_at(self.entries@, i as int);
                }
                if now < self.entries[i].expires_at {
                    Some(self.entries[i].value.clone())
                } else {
                    None
                }
            },
            None => {
                proof {
                    Self::lemma_as_map_contains(self.entries@, k@);
                }
                None
            },
        }
    }

    /// Returns the value already live under `key`, changing nothing; if the
    /// entry is stale or missing, stores `value` with time to live `ttl` and
    /// returns it. Exactly one of the two happens.
    pub fn get_or_set(&mut self, key: String, value: V, ttl: u64, now: u64) -> (r: V)
        ensures
            final(self)@ == spec_get_or_set(old(self)@, key@, value, ttl, now).1,
            cloned::<V>(spec_get_or_set(old(self)@, key@, value, ttl, now).0, r),
    {
        match self.get(key.as_str(), now) {
            Some(existing) => existing,
            None => {
                let out = value.clone();
                self.set(key, value, ttl, now);
                out
            },
        }
    }

    /// Unconditionally removes the entry for `key` (live or stale); the
    /// removed value is returned only if the entry was still live at `now`.
    /// A missing key leaves the cache unchanged.
    pub fn expire(&mut self, key: &str, now: u64) -> (r: Option<V>)
        ensures
            r == spec_expire(old(self)@, key@, now).0,
            final(self)@ == spec_expire(old(self)@, key@, now).1,
    {
        proof {
            use_type_invariant(&*self);
        }
        let k = key.to_owned();
        let mut entries: Vec<Entry<V>> = Vec::new();
        std::mem::swap(&mut entries, &mut self.entries);
        let ghost s0: Seq<Entry<V>> = entries@;
        let r = match Self::position_of(&entries, &k) {
            Some(i) => {
                proof {
                    Self::lemma_as_map_at(s0, i as int);
                    Self::lemma_as_map_remove(s0, i as int);
                }
                let e = entries.remove(i);
                proof {
                    assert(Self::uniq_keys(entries@));
                }
                if now < e.expires_at {
                    Some(e.value)
                } else {
                    None
                }
            },
            None => {
                proof {
                    Self::lemma_as_map_contains(s0, k@);
                    assert(Self::as_map_of(s0) =~= Self::as_map_of(s0).remove(k@));
                }
                None
            },
        };
        self.entries = entries;
        r
    }

    /// Renews the entry for `key` (live or stale): its value is kept and its
    /// expiration instant becomes `now + ttl` (saturating), resurrecting a
    /// stale entry. Returns whether an entry existed; a missing key leaves
    /// the cache unchanged.
    pub fn refresh(&mut self, key: &str, ttl: u64, now: u64) -> (r: bool)
        ensures
            r == spec_refresh(old(self)@, key@, ttl, now).0,
            final(self)@ == spec_refresh(old(self)@, key@, ttl, now).1,
    {
        proof {
            use_type_invariant(&*self);
        }
        let k = key.to_owned();
        let exp = compute_expiry(now, ttl);
        let mut entries: Vec<Entry<V>> = Vec::new();
        std::mem::swap(&mut entries, &mut self.entries);
        let ghost s0: Seq<Entry<V>> = entries@;
        let r = match Self::position_of(&entries, &k) {
            Some(i) => {
                proof {
                    Self::lemma_as_map_at(s0, i as int);
                    Self::lemma_as_map_remove(s0, i as int);
                    assert(forall|j: int|
                        0 <= j < s0.len() && j != i ==> (#[trigger] s0[j]).key@ != k@);
                }
                let mut e = entries.remove(i);
                e.expires_at = exp;
                proof {
                    assert(forall|j: int|
                        0 <= j < entries@.len() ==> (#[trigger] entries@[j]).key@ != k@);
                    assert(Self::uniq_keys(entries@));
                }
                let ghost s1: Seq<Entry<V>> = entries@;
                entries.push(e);
                proof {
                    assert(entries@ == s1.push(entries@.last()));
                    Self::lemma_as_map_push(s1, entries@.last());
                    assert(Self::uniq_keys(entries@));
                    assert(Self::as_map_of(entries@) =~= spec_refresh(
                        Self::as_map_of(s0),
                        k@,
                        ttl,
                        now,
                    ).1);
                }
                true
            },
            None => {
                proof {
                    Self::lemma_as_map_contains(s0, k@);
                }
                false
            },
        };
        self.entries = entries;
        r
    }

    /// Removes every entry whose expiration instant has been reached at
    /// `now`; live entries are retained unchanged.
    pub fn expire_all(&mut self, now: u64)
        ensures
            final(self)@ == spec_expire_all(old(self)@, now),
    {
        proof {
            use_type_invariant(&*self);
        }
        let mut entries: Vec<Entry<V>> = Vec::new();
        std::mem::swap(&mut entries, &mut self.entries);
        let ghost m0: Map<Seq<char>, (V, u64)> = Self::as_map_of(entries@);
        let mut i: usize = 0;
        while i < entries.len()
            invariant
                i <= entries@.len(),
                Self::uniq_keys(entries@),
                forall|j: int| 0 <= j < i ==> now < (#[trigger] entries@[j]).expires_at,
                spec_expire_all(Self::as_map_of(entries@), now) == spec_expire_all(m0, now),
            decreases entries@.len() - i,
        {
            if now < entries[i].expires_at {
                i += 1;
            } else {
                let ghost s: Seq<Entry<V>> = entries@;
                proof {
                    Self::lemma_as_map_at(s, i as int);
                    Self::lemma_as_map_remove(s, i as int);
                }
                entries.remove(i);
                proof {
                    assert(Self::uniq_keys(entries@));
                    assert(spec_expire_all(Self::as_map_of(s).remove(s[i as int].key@), now)
                        =~= spec_expire_all(Self::as_map_of(s), now));
                }
            }
        }
        proof {
            assert(forall|j: int|
                0 <= j < entries@.len() ==> now < (#[trigger] entries@[j]).expires_at);
            assert forall|k: Seq<char>| Self::as_map_of(entries@).contains_key(k) implies now
                < Self::as_map_of(entries@)[k].1 by {
                Self::lemma_as_map_contains(entries@, k);
                let j = choose|j: int|
                    0 <= j < entries@.len() && (#[trigger] entries@[j]).key@ == k;
                Self::lemma_as_map_at(entries@, j);
            }
            assert(spec_expire_all(Self::as_map_of(entries@), now) =~= Self::as_map_of(entries@));
        }
        self.entries = entries;
    }

    /// Removes all entries, live or stale.
    pub fn clear(&mut self)
        ensures
            final(self)@ == Map::<Seq<char>, (V, u64)>::empty(),
    {
        self.entries = Vec::new();
    }

    /// The number of entries physically present, stale ones included.
    pub fn len(&self) -> (n: usize)
        ensures
            n == self@.len(),
    {
        proof {
            use_type_invariant(self);
            Self::lemma_as_map_len(self.entries@);
        }
        self.entries.len()
    }
}

} // verus!
