//! The mathematical model of the cache: its abstract state, the effect of
//! each operation on it, and the invariants those effects preserve.

use vstd::prelude::*;

verus! {

/// The abstract state of a cache: the store's contents, the arrival ring's
/// records (front first), and the cached "oldest pending expiration" hint.
pub struct Model {
    /// Each present key's (payload, expiration instant).
    pub map: Map<Seq<char>, (u64, u64)>,
    /// The (key, expiration instant) records in arrival order.
    pub ring: Seq<(Seq<char>, u64)>,
    /// A lower-bound estimate of the next expiration instant.
    pub oldest: u64,
}

/// The expiration instant of an entry inserted at `now`: `now + ttl`,
/// saturating at `u64::MAX`.
pub open spec fn expiry_of(now: u64, ttl: u64) -> u64 {
    if now + ttl <= u64::MAX {
        (now + ttl) as u64
    } else {
        u64::MAX
    }
}

/// Whether some record of the ring carries the key `k`.
pub open spec fn ring_has_key(r: Seq<(Seq<char>, u64)>, k: Seq<char>) -> bool {
    exists|i: int| 0 <= i < r.len() && (#[trigger] r[i]).0 == k
}

/// Whether the ring holds the exact record `(k, t)`.
pub open spec fn ring_has_record(r: Seq<(Seq<char>, u64)>, k: Seq<char>, t: u64) -> bool {
    exists|i: int| 0 <= i < r.len() && #[trigger] r[i] == (k, t)
}

/// The state invariant: the ring never outgrows the capacity, and every key
/// present in the store has a ring record stamped with the very expiration
/// instant the store holds for it — the record its insert issued.
pub open spec fn inv(m: Model, cap: nat) -> bool {
    &&& m.ring.len() <= cap
    &&& forall|k: Seq<char>| #[trigger] m.map.contains_key(k) ==> ring_has_record(
        m.ring,
        k,
        m.map[k].1,
    )
}

/// One pass of the expiration sweep.  Records are taken from the front;
/// an expired record's key is removed from the store; the first record
/// found not yet expired is returned to the back of the ring, its instant
/// becomes the new hint, and the pass stops.  An exhausted ring leaves the
/// hint as it was.
pub open spec fn sweep_model(m: Model, now: u64) -> Model
    decreases m.ring.len(),
{
    if m.ring.len() == 0 {
        m
    } else if now <= m.ring[0].1 {
        Model { map: m.map, ring: m.ring.drop_first().push(m.ring[0]), oldest: m.ring[0].1 }
    } else {
        sweep_model(
            Model { map: m.map.remove(m.ring[0].0), ring: m.ring.drop_first(), oldest: m.oldest },
            now,
        )
    }
}

/// The opportunistic expiration attempt: sweep only when the hint says some
/// record may already have expired.
pub open spec fn expire_model(m: Model, now: u64) -> Model {
    if m.oldest > now {
        m
    } else {
        sweep_model(m, now)
    }
}

/// One capacity eviction: drop the arrival-oldest record, remove its key
/// from the store, and remember its instant as the hint.
pub open spec fn evict_model(m: Model) -> Model {
    Model { map: m.map.remove(m.ring[0].0), ring: m.ring.drop_first(), oldest: m.ring[0].1 }
}

/// The state after making room (evicting if the ring is full) and recording
/// the new entry in both structures, before any sweep.
pub open spec fn store_model(m: Model, k: Seq<char>, v: u64, e: u64, cap: nat) -> Model {
    let m1 = if m.ring.len() < cap {
        m
    } else {
        evict_model(m)
    };
    Model { map: m1.map.insert(k, (v, e)), ring: m1.ring.push((k, e)), oldest: m1.oldest }
}

/// The full effect of `insert`: record the entry, then attempt a sweep.
pub open spec fn insert_model(m: Model, k: Seq<char>, v: u64, now: u64, ttl: u64, cap: nat) -> Model {
    expire_model(store_model(m, k, v, expiry_of(now, ttl), cap), now)
}

/// What `get` returns: the key's (payload, expiration instant, expired flag)
/// snapshot, or nothing.
pub open spec fn get_result_model(m: Model, k: Seq<char>, now: u64) -> Option<(u64, u64, bool)> {
    if m.map.contains_key(k) {
        Some((m.map[k].0, m.map[k].1, now > m.map[k].1))
    } else {
        None
    }
}

/// The state `get` leaves behind: a hit triggers a sweep attempt, a miss
/// returns at once.
pub open spec fn get_state_model(m: Model, k: Seq<char>, now: u64) -> Model {
    if m.map.contains_key(k) {
        expire_model(m, now)
    } else {
        m
    }
}

/// The ring records that inserting the keys of `ks`, all with expiration
/// instant `e`, appends.
pub open spec fn entries_of(ks: Seq<Seq<char>>, e: u64) -> Seq<(Seq<char>, u64)> {
    Seq::new(ks.len(), |i: int| (ks[i], e))
}

/// The state after inserting the keys of `ks` with the values of `vs`, in
/// order, all at the instant `now`.
pub open spec fn fill_model(
    m: Model,
    ks: Seq<Seq<char>>,
    vs: Seq<u64>,
    now: u64,
    ttl: u64,
    cap: nat,
) -> Model
    decreases ks.len(),
{
    if ks.len() == 0 {
        m
    } else {
        fill_model(
            insert_model(m, ks[0], vs[0], now, ttl, cap),
            ks.drop_first(),
            vs.drop_first(),
            now,
            ttl,
            cap,
        )
    }
}

/// Whether the key `q` occurs nowhere in `ks`.
pub open spec fn misses(ks: Seq<Seq<char>>, q: Seq<char>) -> bool {
    forall|i: int| 0 <= i < ks.len() ==> (#[trigger] ks[i]) != q
}

/// A sweep preserves the invariant and never lengthens the ring.
pub proof fn lemma_sweep_inv(m: Model, now: u64, cap: nat)
    requires
        inv(m, cap),
    ensures
        inv(sweep_model(m, now), cap),
        sweep_model(m, now).ring.len() <= m.ring.len(),
    decreases m.ring.len(),
{
    if m.ring.len() == 0 {
    } else if now <= m.ring[0].1 {
        let sm = sweep_model(m, now);
        assert forall|k: Seq<char>| #[trigger] sm.map.contains_key(k) implies ring_has_record(
            sm.ring,
            k,
            sm.map[k].1,
        ) by {
            let t = m.map[k].1;
            let i = choose|i: int| 0 <= i < m.ring.len() && #[trigger] m.ring[i] == (k, t);
            if i == 0 {
                assert(sm.ring[sm.ring.len() - 1] == (k, t));
            } else {
                assert(sm.ring[i - 1] == (k, t));
            }
        }
    } else {
        let k0 = m.ring[0].0;
        let mn = Model { map: m.map.remove(k0), ring: m.ring.drop_first(), oldest: m.oldest };
        assert forall|k: Seq<char>| #[trigger] mn.map.contains_key(k) implies ring_has_record(
            mn.ring,
            k,
            mn.map[k].1,
        ) by {
            let t = m.map[k].1;
            let i = choose|i: int| 0 <= i < m.ring.len() && #[trigger] m.ring[i] == (k, t);
            assert(i != 0);
            assert(mn.ring[i - 1] == (k, t));
        }
        lemma_sweep_inv(mn, now, cap);
    }
}

/// An expiration attempt preserves the invariant.
pub proof fn lemma_expire_inv(m: Model, now: u64, cap: nat)
    requires
        inv(m, cap),
    ensures
        inv(expire_model(m, now), cap),
{
    if m.oldest <= now {
        lemma_sweep_inv(m, now, cap);
    }
}

/// Recording a new entry preserves the invariant.
pub proof fn lemma_store_inv(m: Model, k: Seq<char>, v: u64, e: u64, cap: nat)
    requires
        inv(m, cap),
        cap >= 1,
    ensures
        inv(store_model(m, k, v, e, cap), cap),
{
    let sm = store_model(m, k, v, e, cap);
    let m1 = if m.ring.len() < cap {
        m
    } else {
        evict_model(m)
    };
    assert forall|q: Seq<char>| #[trigger] sm.map.contains_key(q) implies ring_has_record(
        sm.ring,
        q,
        sm.map[q].1,
    ) by {
        if q == k {
            assert(sm.ring[sm.ring.len() - 1] == (q, e));
        } else {
            assert(m1.map.contains_key(q));
            let t = m.map[q].1;
            let i = choose|i: int| 0 <= i < m.ring.len() && #[trigger] m.ring[i] == (q, t);
            if m.ring.len() < cap {
                assert(sm.ring[i] == (q, t));
            } else {
                assert(i != 0);
                assert(sm.ring[i - 1] == (q, t));
            }
        }
    }
}

/// A full insert preserves the invariant.
pub proof fn lemma_insert_inv(m: Model, k: Seq<char>, v: u64, now: u64, ttl: u64, cap: nat)
    requires
        inv(m, cap),
        cap >= 1,
    ensures
        inv(insert_model(m, k, v, now, ttl, cap), cap),
{
    lemma_store_inv(m, k, v, expiry_of(now, ttl), cap);
    lemma_expire_inv(store_model(m, k, v, expiry_of(now, ttl), cap), now, cap);
}

/// A sweep never adds a key: what it keeps, the state already held, with the
/// same entry.
pub proof fn lemma_sweep_no_new_keys(m: Model, now: u64, q: Seq<char>)
    ensures
        sweep_model(m, now).map.contains_key(q) ==> m.map.contains_key(q) && sweep_model(
            m,
            now,
        ).map[q] == m.map[q],
    decreases m.ring.len(),
{
    if m.ring.len() == 0 {
    } else if now <= m.ring[0].1 {
    } else {
        let mn = Model {
            map: m.map.remove(m.ring[0].0),
            ring: m.ring.drop_first(),
            oldest: m.oldest,
        };
        lemma_sweep_no_new_keys(mn, now, q);
    }
}

/// A sweep keeps a key whose ring records are all still unexpired, entry and
/// all.
pub proof fn lemma_sweep_keeps_fresh_key(m: Model, now: u64, k: Seq<char>)
    requires
        m.map.contains_key(k),
        forall|i: int| 0 <= i < m.ring.len() && (#[trigger] m.ring[i]).0 == k ==> now
            <= m.ring[i].1,
    ensures
        sweep_model(m, now).map.contains_key(k),
        sweep_model(m, now).map[k] == m.map[k],
    decreases m.ring.len(),
{
    if m.ring.len() == 0 {
    } else if now <= m.ring[0].1 {
    } else {
        assert(m.ring[0].0 != k);
        let mn = Model {
            map: m.map.remove(m.ring[0].0),
            ring: m.ring.drop_first(),
            oldest: m.oldest,
        };
        assert forall|i: int| 0 <= i < mn.ring.len() && (#[trigger] mn.ring[i]).0 == k implies now
            <= mn.ring[i].1 by {
            assert(mn.ring[i] == m.ring[i + 1]);
        }
        lemma_sweep_keeps_fresh_key(mn, now, k);
    }
}

/// A sweep flushes a key that has a record in the ring with only expired
/// records (strictly before `now`) ahead of and including it.
pub proof fn lemma_sweep_flushes_key(m: Model, now: u64, q: Seq<char>, j: int)
    requires
        0 <= j < m.ring.len(),
        m.ring[j].0 == q,
        forall|i: int| 0 <= i <= j ==> (#[trigger] m.ring[i]).1 < now,
    ensures
        !sweep_model(m, now).map.contains_key(q),
    decreases m.ring.len(),
{
    assert(m.ring[0].1 < now);
    let mn = Model { map: m.map.remove(m.ring[0].0), ring: m.ring.drop_first(), oldest: m.oldest };
    if j == 0 {
        lemma_sweep_no_new_keys(mn, now, q);
    } else {
        assert forall|i: int| 0 <= i <= j - 1 implies (#[trigger] mn.ring[i]).1 < now by {
            assert(mn.ring[i] == m.ring[i + 1]);
        }
        assert(mn.ring[j - 1].0 == q);
        lemma_sweep_flushes_key(mn, now, q, j - 1);
    }
}

} // verus!
