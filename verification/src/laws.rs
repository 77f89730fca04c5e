//! The laws of the cache, proved once over the abstract store that the
//! operations' contracts speak of.
//!
//! Each law quantifies over every store, key, value and clock reading its
//! statement allows; the operations' `ensures` clauses tie the executable
//! cache to the spec functions the laws are stated over.

use vstd::prelude::*;
use crate::cache::{
    expiry, spec_expire, spec_expire_all, spec_get, spec_get_or_set, spec_refresh, spec_set,
};

verus! {

/// A value stored with a positive time to live is immediately visible: a
/// read of the same key at the instant of the write yields exactly it.
/// (At `now == u64::MAX` the expiration instant saturates to `now` itself
/// and the entry is born stale, so that instant is excluded.)
pub proof fn lemma_set_then_get<V>(
    m: Map<Seq<char>, (V, u64)>,
    k: Seq<char>,
    v: V,
    ttl: u64,
    now: u64,
)
    requires
        0 < ttl,
        now < u64::MAX,
    ensures
        spec_get(spec_set(m, k, v, ttl, now), k, now) == Some(v),
{
}

/// On an empty store, a conditional insertion returns the given value and
/// leaves exactly the store that a plain write would: the two are equivalent
/// in effect, so a read afterwards sees what a write followed by a read
/// would see.
pub proof fn lemma_get_or_set_on_empty<V>(k: Seq<char>, v: V, ttl: u64, now: u64)
    ensures
        spec_get_or_set(Map::<Seq<char>, (V, u64)>::empty(), k, v, ttl, now) == (
            v,
            spec_set(Map::<Seq<char>, (V, u64)>::empty(), k, v, ttl, now),
        ),
{
}

/// On a key holding a live value, a conditional insertion returns that
/// value and changes nothing, whatever value was offered: no overwrite, no
/// renewed time to live.
pub proof fn lemma_get_or_set_on_live<V>(
    m: Map<Seq<char>, (V, u64)>,
    k: Seq<char>,
    v1: V,
    v2: V,
    ttl: u64,
    now: u64,
)
    requires
        spec_get(m, k, now) == Some(v1),
    ensures
        spec_get_or_set(m, k, v2, ttl, now) == (v1, m),
{
}

/// The expiration boundary: an entry written at `now0` with time to live
/// `d` is readable at exactly the instants strictly before `now0 + d`
/// (saturating), and gone from sight at that instant and ever after.
pub proof fn lemma_expiration_boundary<V>(
    m: Map<Seq<char>, (V, u64)>,
    k: Seq<char>,
    v: V,
    d: u64,
    now0: u64,
    t: u64,
)
    ensures
        t < expiry(now0, d) ==> spec_get(spec_set(m, k, v, d, now0), k, t) == Some(v),
        t >= expiry(now0, d) ==> spec_get(spec_set(m, k, v, d, now0), k, t) is None,
{
}

/// A sweep removes exactly the stale entries: a key survives if and only if
/// it was present and live, its entry is unchanged, and the size afterwards
/// is the count of entries whose expiration instant lies beyond `now`.
pub proof fn lemma_expire_all_exact<V>(m: Map<Seq<char>, (V, u64)>, now: u64)
    requires
        m.dom().finite(),
    ensures
        forall|k: Seq<char>|
            #[trigger] spec_expire_all(m, now).contains_key(k) <==> (m.contains_key(k) && now
                < m[k].1),
        forall|k: Seq<char>|
            #[trigger] spec_expire_all(m, now).contains_key(k) ==> spec_expire_all(m, now)[k]
                == m[k],
        spec_expire_all(m, now).dom() == m.dom().filter(|k: Seq<char>| now < m[k].1),
        spec_expire_all(m, now).len() == m.dom().filter(|k: Seq<char>| now < m[k].1).len(),
{
    assert(spec_expire_all(m, now).dom() =~= m.dom().filter(|k: Seq<char>| now < m[k].1));
}

/// Renewing an existing entry, live or stale, succeeds: the stored value is
/// kept, the expiration instant becomes `now + ttl` (saturating), and the
/// entry is live again at every instant strictly before it.
pub proof fn lemma_refresh_existing<V>(m: Map<Seq<char>, (V, u64)>, k: Seq<char>, ttl: u64, now: u64)
    requires
        m.contains_key(k),
    ensures
        spec_refresh(m, k, ttl, now).0,
        spec_refresh(m, k, ttl, now).1[k] == (m[k].0, expiry(now, ttl)),
        forall|t: u64|
            t < expiry(now, ttl) ==> spec_get(spec_refresh(m, k, ttl, now).1, k, t) == Some(
                m[k].0,
            ),
        spec_refresh(m, k, ttl, now).1.dom() == m.dom(),
{
    assert(spec_refresh(m, k, ttl, now).1.dom() =~= m.dom());
}

/// Renewing a missing key fails and changes nothing, the size included.
pub proof fn lemma_refresh_missing<V>(m: Map<Seq<char>, (V, u64)>, k: Seq<char>, ttl: u64, now: u64)
    requires
        !m.contains_key(k),
    ensures
        !spec_refresh(m, k, ttl, now).0,
        spec_refresh(m, k, ttl, now).1 == m,
{
}

/// After a full reset the store is empty: its size is zero and a read of
/// any key at any instant yields nothing.
pub proof fn lemma_clear_then_get<V>(k: Seq<char>, now: u64)
    ensures
        Map::<Seq<char>, (V, u64)>::empty().len() == 0,
        spec_get(Map::<Seq<char>, (V, u64)>::empty(), k, now) is None,
{
}

/// Removing a key always deletes its entry; the value comes back exactly
/// when the entry was live, a stale entry is removed silently, and a
/// missing key leaves the store as it was.
pub proof fn lemma_expire_cases<V>(m: Map<Seq<char>, (V, u64)>, k: Seq<char>, now: u64)
    ensures
        !spec_expire(m, k, now).1.contains_key(k),
        (m.contains_key(k) && now < m[k].1) ==> spec_expire(m, k, now).0 == Some(m[k].0),
        (m.contains_key(k) && now >= m[k].1) ==> spec_expire(m, k, now).0 is None,
        !m.contains_key(k) ==> (spec_expire(m, k, now).0 is None && spec_expire(m, k, now).1
            == m),
{
    if !m.contains_key(k) {
        assert(m.remove(k) =~= m);
    }
}

} // verus!
