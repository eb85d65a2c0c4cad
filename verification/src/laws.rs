//! The cache's stated laws, proved over the abstract model.

use vstd::prelude::*;

use crate::model::{
    entries_of, evict_model, expire_model, expiry_of, fill_model, get_result_model,
    get_state_model, insert_model, inv, lemma_expire_inv, lemma_insert_inv,
    lemma_sweep_flushes_key, lemma_sweep_keeps_fresh_key, lemma_sweep_no_new_keys, misses,
    ring_has_key, ring_has_record, store_model, sweep_model, Model,
};

verus! {

/// Law: an insert immediately followed by a lookup at the same instant finds
/// the freshly stored payload, not yet expired — provided every record the
/// ring still holds for that key is itself not yet expired.  (An expired
/// leftover record for the same key would let the sweep between the two
/// calls retire the fresh store entry along with it.)
pub proof fn lemma_insert_then_get(m: Model, k: Seq<char>, v: u64, now: u64, ttl: u64, cap: nat)
    requires
        inv(m, cap),
        cap >= 1,
        forall|i: int| 0 <= i < m.ring.len() && (#[trigger] m.ring[i]).0 == k ==> now
            <= m.ring[i].1,
    ensures
        (get_result_model(insert_model(m, k, v, now, ttl, cap), k, now) == Some(
            (v, expiry_of(now, ttl), false),
        )),
{
    let e = expiry_of(now, ttl);
    let sm = store_model(m, k, v, e, cap);
    let m1 = if m.ring.len() < cap {
        m
    } else {
        evict_model(m)
    };
    assert forall|i: int| 0 <= i < sm.ring.len() && (#[trigger] sm.ring[i]).0 == k implies now
        <= sm.ring[i].1 by {
        if i < sm.ring.len() - 1 {
            if m.ring.len() < cap {
                assert(sm.ring[i] == m.ring[i]);
            } else {
                assert(sm.ring[i] == m.ring[i + 1]);
            }
        }
    }
    if sm.oldest <= now {
        lemma_sweep_keeps_fresh_key(sm, now, k);
    }
}

/// Law: a key never inserted is never reported present.  A fresh cache
/// stores nothing, and the two lemmas below carry absence through every
/// operation: an insert of a different key, and the sweep a lookup may
/// trigger, both leave an absent key absent.
pub proof fn lemma_absent_after_insert(
    m: Model,
    k: Seq<char>,
    v: u64,
    now: u64,
    ttl: u64,
    cap: nat,
    q: Seq<char>,
)
    requires
        !m.map.contains_key(q),
        q != k,
    ensures
        !insert_model(m, k, v, now, ttl, cap).map.contains_key(q),
{
    let sm = store_model(m, k, v, expiry_of(now, ttl), cap);
    if sm.oldest <= now {
        lemma_sweep_no_new_keys(sm, now, q);
    }
}

/// Law, second half: the state a lookup leaves behind holds no key that was
/// absent before it.
pub proof fn lemma_absent_after_get(m: Model, k: Seq<char>, now: u64, q: Seq<char>)
    requires
        !m.map.contains_key(q),
    ensures
        !get_state_model(m, k, now).map.contains_key(q),
{
    if m.map.contains_key(k) && m.oldest <= now {
        lemma_sweep_no_new_keys(m, now, q);
    }
}

/// Law: the cache's size — the ring's record count — never exceeds the
/// capacity after any sequence of operations: a fresh cache satisfies the
/// state invariant, an insert and a sweep both preserve it, and under it the
/// ring is bounded by the capacity.
pub proof fn lemma_len_bounded(m: Model, k: Seq<char>, v: u64, now: u64, ttl: u64, cap: nat)
    requires
        inv(m, cap),
        cap >= 1,
    ensures
        m.ring.len() <= cap,
        inv(insert_model(m, k, v, now, ttl, cap), cap),
        insert_model(m, k, v, now, ttl, cap).ring.len() <= cap,
        inv(expire_model(m, now), cap),
        expire_model(m, now).ring.len() <= cap,
{
    lemma_insert_inv(m, k, v, now, ttl, cap);
    lemma_expire_inv(m, now, cap);
}

/// Splitting a run of inserts at one instant: filling with the
/// concatenation is filling with the first part, then the second.
pub proof fn lemma_fill_split(
    m: Model,
    ks1: Seq<Seq<char>>,
    vs1: Seq<u64>,
    ks2: Seq<Seq<char>>,
    vs2: Seq<u64>,
    now: u64,
    ttl: u64,
    cap: nat,
)
    requires
        vs1.len() == ks1.len(),
        vs2.len() == ks2.len(),
    ensures
        (fill_model(m, ks1 + ks2, vs1 + vs2, now, ttl, cap) == fill_model(
            fill_model(m, ks1, vs1, now, ttl, cap),
            ks2,
            vs2,
            now,
            ttl,
            cap,
        )),
    decreases ks1.len(),
{
    if ks1.len() == 0 {
        assert(ks1 + ks2 =~= ks2);
        assert(vs1 + vs2 =~= vs2);
    } else {
        assert((ks1 + ks2)[0] == ks1[0]);
        assert((vs1 + vs2)[0] == vs1[0]);
        assert((ks1 + ks2).drop_first() =~= ks1.drop_first() + ks2);
        assert((vs1 + vs2).drop_first() =~= vs1.drop_first() + vs2);
        lemma_fill_split(
            insert_model(m, ks1[0], vs1[0], now, ttl, cap),
            ks1.drop_first(),
            vs1.drop_first(),
            ks2,
            vs2,
            now,
            ttl,
            cap,
        );
    }
}

/// Inserting a run of distinct keys at one instant, while the hint defers
/// sweeping and the ring has room for all of them, appends their records in
/// order and stores their entries, touching nothing else.
pub proof fn lemma_fill_quiet(
    m: Model,
    ks: Seq<Seq<char>>,
    vs: Seq<u64>,
    now: u64,
    ttl: u64,
    cap: nat,
)
    requires
        vs.len() == ks.len(),
        forall|i: int, j: int| 0 <= i < j < ks.len() ==> ks[i] != ks[j],
        m.oldest > now,
        m.ring.len() + ks.len() <= cap,
    ensures
        ({
            let r = fill_model(m, ks, vs, now, ttl, cap);
            &&& r.oldest == m.oldest
            &&& r.ring == m.ring + entries_of(ks, expiry_of(now, ttl))
            &&& forall|j: int|
                0 <= j < ks.len() ==> r.map.contains_key(#[trigger] ks[j]) && r.map[ks[j]] == (
                vs[j],
                expiry_of(now, ttl),
            )
            &&& forall|q: Seq<char>|
                misses(ks, q) ==> (#[trigger] r.map.contains_key(q) == m.map.contains_key(q)) && (
                m.map.contains_key(q) ==> r.map[q] == m.map[q])
        }),
    decreases ks.len(),
{
    let e = expiry_of(now, ttl);
    let r = fill_model(m, ks, vs, now, ttl, cap);
    if ks.len() == 0 {
        assert(m.ring + entries_of(ks, e) =~= m.ring);
    } else {
        let m1 = insert_model(m, ks[0], vs[0], now, ttl, cap);
        assert(m1 == Model {
            map: m.map.insert(ks[0], (vs[0], e)),
            ring: m.ring.push((ks[0], e)),
            oldest: m.oldest,
        });
        let kr = ks.drop_first();
        let vr = vs.drop_first();
        lemma_fill_quiet(m1, kr, vr, now, ttl, cap);
        assert(r == fill_model(m1, kr, vr, now, ttl, cap));
        assert(m1.ring + entries_of(kr, e) =~= m.ring + entries_of(ks, e));
        assert forall|j: int| 0 <= j < ks.len() implies r.map.contains_key(#[trigger] ks[j])
            && r.map[ks[j]] == (vs[j], e) by {
            if j == 0 {
                assert(misses(kr, ks[0])) by {
                    assert forall|i: int| 0 <= i < kr.len() implies (#[trigger] kr[i]) != ks[0] by {
                        assert(kr[i] == ks[i + 1]);
                    }
                }
                assert(m1.map.contains_key(ks[0]) && m1.map[ks[0]] == (vs[0], e));
            } else {
                assert(kr[j - 1] == ks[j]);
                assert(vr[j - 1] == vs[j]);
            }
        }
        assert forall|q: Seq<char>| misses(ks, q) implies (#[trigger] r.map.contains_key(q)
            == m.map.contains_key(q)) && (m.map.contains_key(q) ==> r.map[q] == m.map[q]) by {
            assert(q != ks[0]);
            assert(misses(kr, q)) by {
                assert forall|i: int| 0 <= i < kr.len() implies (#[trigger] kr[i]) != q by {
                    assert(kr[i] == ks[i + 1]);
                }
            }
            assert(m1.map.contains_key(q) == m.map.contains_key(q));
        }
    }
}

/// Law: filling a fresh cache with `capacity + 1` distinct keys at one
/// instant evicts exactly the arrival-oldest entry: the first key ends up
/// absent, every later key is present with its payload, and the ring holds
/// exactly `capacity` records.
pub proof fn lemma_capacity_eviction(
    ks: Seq<Seq<char>>,
    vs: Seq<u64>,
    now: u64,
    ttl: u64,
    cap: nat,
    h0: u64,
)
    requires
        cap >= 1,
        ks.len() == cap + 1,
        vs.len() == ks.len(),
        forall|i: int, j: int| 0 <= i < j < ks.len() ==> ks[i] != ks[j],
        ttl >= 1,
        now < u64::MAX,
    ensures
        ({
            let m0 = Model {
                map: Map::<Seq<char>, (u64, u64)>::empty(),
                ring: Seq::<(Seq<char>, u64)>::empty(),
                oldest: h0,
            };
            let mfin = fill_model(m0, ks, vs, now, ttl, cap);
            &&& !mfin.map.contains_key(ks[0])
            &&& forall|j: int|
                1 <= j < ks.len() ==> mfin.map.contains_key(#[trigger] ks[j]) && mfin.map[ks[j]]
                    == (vs[j], expiry_of(now, ttl))
            &&& mfin.ring.len() == cap
        }),
{
    let e = expiry_of(now, ttl);
    assert(e > now);
    let m0 = Model {
        map: Map::<Seq<char>, (u64, u64)>::empty(),
        ring: Seq::<(Seq<char>, u64)>::empty(),
        oldest: h0,
    };
    let mfin = fill_model(m0, ks, vs, now, ttl, cap);

    // The first insert: no eviction; the sweep, if attempted, finds the lone
    // fresh record, returns it, and raises the hint past `now`.
    let m1 = insert_model(m0, ks[0], vs[0], now, ttl, cap);
    let sm0 = store_model(m0, ks[0], vs[0], e, cap);
    assert(sm0.ring =~= seq![(ks[0], e)]);
    if h0 <= now {
        assert(sweep_model(sm0, now).ring =~= sm0.ring.drop_first().push(sm0.ring[0]));
        assert(sm0.ring.drop_first().push(sm0.ring[0]) =~= sm0.ring);
    }
    assert(m1.map == m0.map.insert(ks[0], (vs[0], e)));
    assert(m1.ring =~= seq![(ks[0], e)]);
    assert(m1.oldest > now);

    // The middle inserts: room for all of them, hint in the future.
    let rest = ks.drop_first();
    let vrest = vs.drop_first();
    let mid = rest.subrange(0, cap as int - 1);
    let vmid = vrest.subrange(0, cap as int - 1);
    let tail = rest.subrange(cap as int - 1, cap as int);
    let vtail = vrest.subrange(cap as int - 1, cap as int);
    assert(rest =~= mid + tail);
    assert(vrest =~= vmid + vtail);
    assert(mfin == fill_model(m1, rest, vrest, now, ttl, cap));
    lemma_fill_split(m1, mid, vmid, tail, vtail, now, ttl, cap);
    let m2 = fill_model(m1, mid, vmid, now, ttl, cap);
    assert(forall|i: int, j: int| 0 <= i < j < mid.len() ==> mid[i] != mid[j]) by {
        assert forall|i: int, j: int| 0 <= i < j < mid.len() implies mid[i] != mid[j] by {
            assert(mid[i] == ks[i + 1] && mid[j] == ks[j + 1]);
        }
    }
    lemma_fill_quiet(m1, mid, vmid, now, ttl, cap);
    assert(m2.ring.len() == cap);
    assert(m2.oldest > now);

    // The last insert: the ring is full, so the arrival-oldest record —
    // the first key's — is evicted; the hint stays past `now`.
    assert(mfin == fill_model(m2, tail, vtail, now, ttl, cap));
    assert(tail.len() == 1 && tail[0] == ks[cap as int]);
    assert(vtail[0] == vs[cap as int]);
    let m3 = insert_model(m2, ks[cap as int], vs[cap as int], now, ttl, cap);
    assert(mfin == fill_model(
        insert_model(m2, tail[0], vtail[0], now, ttl, cap),
        tail.drop_first(),
        vtail.drop_first(),
        now,
        ttl,
        cap,
    ));
    assert(tail.drop_first().len() == 0);
    assert(mfin == m3);
    assert(m2.ring[0] == (m1.ring + entries_of(mid, e))[0]);
    assert(m2.ring[0] == (ks[0], e));
    let ev = evict_model(m2);
    let sm3 = store_model(m2, ks[cap as int], vs[cap as int], e, cap);
    assert(sm3.map == ev.map.insert(ks[cap as int], (vs[cap as int], e)));
    assert(sm3.oldest == e);
    assert(m3 == sm3);

    // Assemble the three claims.
    assert(ks[cap as int] != ks[0]);
    assert(!m3.map.contains_key(ks[0]));
    assert forall|j: int| 1 <= j < ks.len() implies m3.map.contains_key(#[trigger] ks[j])
        && m3.map[ks[j]] == (vs[j], e) by {
        if j < cap {
            assert(mid[j - 1] == ks[j]);
            assert(vmid[j - 1] == vs[j]);
            assert(m2.map.contains_key(ks[j]) && m2.map[ks[j]] == (vs[j], e));
            assert(ks[j] != ks[0]);
            assert(ks[j] != ks[cap as int]);
        }
    }
    assert(m3.ring.len() == cap);
}

/// Law: once the hint no longer defers it and every record in the ring has
/// expired, the sweep that any insert — or any lookup that hits — triggers
/// flushes every stored key.  A bounded number of further operations is not
/// even needed: one sweep drains the whole ring.
pub proof fn lemma_expired_entries_swept(m: Model, now: u64, cap: nat, q: Seq<char>)
    requires
        inv(m, cap),
        m.oldest <= now,
        m.map.contains_key(q),
        forall|i: int| 0 <= i < m.ring.len() ==> (#[trigger] m.ring[i]).1 < now,
    ensures
        !expire_model(m, now).map.contains_key(q),
{
    let t = m.map[q].1;
    let j = choose|i: int| 0 <= i < m.ring.len() && #[trigger] m.ring[i] == (q, t);
    lemma_sweep_flushes_key(m, now, q, j);
}

/// Law: in any well-formed state, a snapshot handed out for a present key
/// carries the expiration instant of a ring record issued for that very key
/// — the one its insert stamped on both structures.
pub proof fn lemma_snapshot_matches_insert(m: Model, k: Seq<char>, now: u64, cap: nat)
    requires
        inv(m, cap),
        m.map.contains_key(k),
    ensures
        (get_result_model(m, k, now) == Some((m.map[k].0, m.map[k].1, now > m.map[k].1))),
        ring_has_record(m.ring, k, m.map[k].1),
{
}

/// Law, insert flavour: an insert performed after every pending record has
/// expired (hint included) flushes every previously stored key other than
/// the one being inserted.
pub proof fn lemma_insert_sweeps_expired(
    m: Model,
    k: Seq<char>,
    v: u64,
    now: u64,
    ttl: u64,
    cap: nat,
    q: Seq<char>,
)
    requires
        inv(m, cap),
        cap >= 1,
        m.oldest <= now,
        m.map.contains_key(q),
        q != k,
        forall|i: int| 0 <= i < m.ring.len() ==> (#[trigger] m.ring[i]).1 < now,
    ensures
        !insert_model(m, k, v, now, ttl, cap).map.contains_key(q),
{
    let e = expiry_of(now, ttl);
    let sm = store_model(m, k, v, e, cap);
    let tq = m.map[q].1;
    let j = choose|i: int| 0 <= i < m.ring.len() && #[trigger] m.ring[i] == (q, tq);
    if m.ring.len() >= cap && m.ring[0].0 == q && !ring_has_key(m.ring.drop_first(), q) {
        // the eviction itself removed the key's only record, and its entry
        assert(!sm.map.contains_key(q));
        if sm.oldest <= now {
            lemma_sweep_no_new_keys(sm, now, q);
        }
    } else {
        // the key still has a record, with only expired records before it
        let m1 = if m.ring.len() < cap {
            m
        } else {
            evict_model(m)
        };
        let j1: int = if m.ring.len() < cap {
            j
        } else {
            if j > 0 {
                j - 1
            } else {
                choose|i: int| 0 <= i < m.ring.drop_first().len() && (#[trigger] m.ring.drop_first()[i]).0 == q
            }
        };
        assert(0 <= j1 < m1.ring.len() && m1.ring[j1].0 == q) by {
            if m.ring.len() >= cap {
                if j > 0 {
                    assert(m1.ring[j - 1] == m.ring[j]);
                } else {
                    assert(ring_has_key(m.ring.drop_first(), q));
                }
            }
        }
        assert(0 <= j1 < sm.ring.len() && sm.ring[j1].0 == q);
        assert forall|i: int| 0 <= i <= j1 implies (#[trigger] sm.ring[i]).1 < now by {
            if m.ring.len() < cap {
                assert(sm.ring[i] == m.ring[i]);
            } else {
                assert(sm.ring[i] == m.ring[i + 1]);
            }
        }
        assert(sm.oldest <= now);
        lemma_sweep_flushes_key(sm, now, q, j1);
    }
}

} // verus!
