//! The cache facade: a capacity-bounded, TTL-based key-value cache composed
//! of the concurrent store, the bounded arrival ring, and the expiration
//! coordinator's flag and hint.

use vstd::prelude::*;

use crate::ext::{
    duration_to_nanos, hasher_new, map_view, nanos_of, ring_cap, ring_len, ring_new, ring_pop,
    ring_push, ring_view, store_get, store_insert, store_new, store_remove, Clock, RingQueue,
    StoreMap,
};
use crate::model::{
    evict_model, expire_model, expiry_of, get_result_model, get_state_model, insert_model, inv,
    lemma_store_inv, lemma_sweep_inv, store_model, sweep_model, Model,
};
use crate::value::{value_triple, Value};
use std::time::Duration;

verus! {

/// A not so accurate but performant time and capacity based cache.
///
/// Entries are evicted either by arrival order, once the fixed capacity is
/// exceeded, or by an opportunistic expiration sweep.  Both are approximate
/// by design: an expired entry may be handed out, flagged, until a sweep
/// retires it.
pub struct Cache {
    map: StoreMap,
    ring: RingQueue,
    capacity: usize,
    ttl: u64,
    expire_started: bool,
    oldest: u64,
    clock: Clock,
}

impl Cache {
    /// The abstract state of the cache.
    pub closed spec fn model(&self) -> Model {
        Model { map: map_view(self.map), ring: ring_view(self.ring), oldest: self.oldest }
    }

    /// The configured capacity.
    pub closed spec fn spec_capacity(&self) -> usize {
        self.capacity
    }

    /// The configured time-to-live, in nanoseconds of the cache's clock.
    pub closed spec fn spec_ttl(&self) -> u64 {
        self.ttl
    }

    /// Well-formedness: the ring was built with the configured (positive)
    /// capacity, the state invariant holds, and no sweep is marked running.
    pub closed spec fn wf(&self) -> bool {
        &&& ring_cap(self.ring) == self.capacity as nat
        &&& self.capacity >= 1
        &&& inv(self.model(), self.capacity as nat)
        &&& !self.expire_started
    }

    /// Create a new cache with the given capacity and time-to-live (TTL) for
    /// values.  The TTL is measured on the cache's own clock, truncated to
    /// whole nanoseconds and saturating at `u64::MAX`.
    pub fn new(capacity: usize, ttl: Duration) -> (c: Cache)
        requires
            1 <= capacity < usize::MAX / 2,
        ensures
            c.wf(),
            c.spec_capacity() == capacity,
            (c.spec_ttl() as nat == if nanos_of(ttl) <= u64::MAX as nat {
                nanos_of(ttl)
            } else {
                u64::MAX as nat
            }),
            (c.model().map == Map::<Seq<char>, (u64, u64)>::empty()),
            (c.model().ring == Seq::<(Seq<char>, u64)>::empty()),
    {
        let clock = Clock::new();
        let oldest = clock.now_nanos();
        let ttl_nanos = duration_to_nanos(&ttl);
        let c = Cache {
            map: store_new(capacity, hasher_new()),
            ring: ring_new(capacity),
            capacity,
            ttl: ttl_nanos,
            expire_started: false,
            oldest,
            clock,
        };
        proof {
            assert forall|k: Seq<char>| #[trigger] c.model().map.contains_key(k) implies
                crate::model::ring_has_record(c.model().ring, k, c.model().map[k].1) by {}
        }
        c
    }

    /// Get the number of elements in the cache: the arrival ring is the
    /// source of truth for the size.
    pub fn len(&self) -> (r: usize)
        ensures
            r as nat == self.model().ring.len(),
            self.wf() ==> r <= self.spec_capacity(),
    {
        ring_len(&self.ring)
    }

    /// Get the capacity of the cache.
    pub fn capacity(&self) -> (r: usize)
        ensures
            r == self.spec_capacity(),
    {
        self.capacity
    }

    /// Look the key up as of the instant `now` on the cache's clock.
    ///
    /// A hit returns a detached snapshot, expired flag computed against
    /// `now`, and then attempts a sweep; a miss returns at once.
    pub fn get_at(&mut self, key: String, now: u64) -> (r: Option<Value<u64>>)
        requires
            old(self).wf(),
        ensures
            final(self).wf(),
            final(self).spec_capacity() == old(self).spec_capacity(),
            final(self).spec_ttl() == old(self).spec_ttl(),
            value_triple(r) == get_result_model(old(self).model(), key@, now),
            final(self).model() == get_state_model(old(self).model(), key@, now),
    {
        let found = store_get(&self.map, &key);
        match found {
            None => None,
            Some((v, t)) => {
                let snap = Value::snapshot(v, t, now > t);
                self.do_expire(now);
                Some(snap)
            },
        }
    }

    /// Get the value associated with the given key, if it exists, expiration
    /// judged against the present instant of the cache's clock.
    pub fn get(&mut self, key: String) -> (r: Option<Value<u64>>)
        requires
            old(self).wf(),
        ensures
            final(self).wf(),
            final(self).spec_capacity() == old(self).spec_capacity(),
            final(self).spec_ttl() == old(self).spec_ttl(),
            (r is Some) == old(self).model().map.contains_key(key@),
            r matches Some(v) ==> v.inner() == old(self).model().map[key@].0
                && v.spec_expire_at() == old(self).model().map[key@].1,
            exists|now: u64|
                value_triple(r) == get_result_model(old(self).model(), key@, now)
                    && final(self).model() == get_state_model(old(self).model(), key@, now),
    {
        let now = self.clock.now_nanos();
        let r = self.get_at(key, now);
        proof {
            assert(value_triple(r) == get_result_model(old(self).model(), key@, now)
                && self.model() == get_state_model(old(self).model(), key@, now));
        }
        r
    }

    /// Insert the key-value pair as of the instant `now` on the cache's
    /// clock.
    ///
    /// If the ring is full the arrival-oldest record is evicted first; the
    /// entry is then recorded in ring and store with expiration `now + ttl`
    /// (saturating), and a sweep is attempted.
    pub fn insert_at(&mut self, key: String, value: u64, now: u64)
        requires
            old(self).wf(),
        ensures
            final(self).wf(),
            final(self).spec_capacity() == old(self).spec_capacity(),
            final(self).spec_ttl() == old(self).spec_ttl(),
            final(self).model() == insert_model(
                old(self).model(),
                key@,
                value,
                now,
                old(self).spec_ttl(),
                old(self).spec_capacity() as nat,
            ),
    {
        let ghost m0 = self.model();
        let ghost cap0 = self.capacity;
        let ghost ttl0 = self.ttl;
        let ghost ck0 = self.clock;
        let expire_at: u64 = if now <= u64::MAX - self.ttl {
            now + self.ttl
        } else {
            u64::MAX
        };
        proof {
            assert(expire_at == expiry_of(now, ttl0));
        }
        let ghost m1 = if m0.ring.len() < cap0 as nat {
            m0
        } else {
            evict_model(m0)
        };
        loop
            invariant_except_break
                self.capacity == cap0,
                self.ttl == ttl0,
                self.clock == ck0,
                self.expire_started == false,
                cap0 >= 1,
                inv(m0, cap0 as nat),
                ring_cap(self.ring) == cap0 as nat,
                (m1 == if m0.ring.len() < cap0 as nat {
                    m0
                } else {
                    evict_model(m0)
                }),
                self.model() == m0 || (m0.ring.len() == cap0 as nat && self.model() == evict_model(
                    m0,
                )),
            ensures
                self.capacity == cap0,
                self.ttl == ttl0,
                self.clock == ck0,
                self.expire_started == false,
                ring_cap(self.ring) == cap0 as nat,
                (self.model() == Model {
                    map: m1.map,
                    ring: m1.ring.push((key@, expire_at)),
                    oldest: m1.oldest,
                }),
            decreases self.model().ring.len(),
        {
            let attempt = ring_push(&mut self.ring, key.clone(), expire_at);
            match attempt {
                Ok(()) => {
                    break;
                },
                Err(_) => {
                    // ringbuf is full, pop one
                    let popped = ring_pop(&mut self.ring);
                    match popped {
                        Some((k_old, e_old)) => {
                            store_remove(&mut self.map, &k_old);
                            self.oldest = e_old;
                        },
                        None => {
                            proof {
                                assert(false);
                            }
                        },
                    }
                },
            }
        }
        store_insert(&mut self.map, key, (value, expire_at));
        proof {
            assert(self.model() == store_model(m0, key@, value, expire_at, cap0 as nat));
            lemma_store_inv(m0, key@, value, expire_at, cap0 as nat);
        }
        self.do_expire(now);
    }

    /// Insert a key-value pair in the cache.
    ///
    /// If the cache is full, it will evict the oldest entry.
    pub fn insert(&mut self, key: String, value: u64)
        requires
            old(self).wf(),
        ensures
            final(self).wf(),
            final(self).spec_capacity() == old(self).spec_capacity(),
            final(self).spec_ttl() == old(self).spec_ttl(),
            exists|now: u64|
                final(self).model() == insert_model(
                    old(self).model(),
                    key@,
                    value,
                    now,
                    old(self).spec_ttl(),
                    old(self).spec_capacity() as nat,
                ),
    {
        let now = self.clock.now_nanos();
        self.insert_at(key, value, now);
        proof {
            assert(self.model() == insert_model(
                old(self).model(),
                key@,
                value,
                now,
                old(self).spec_ttl(),
                old(self).spec_capacity() as nat,
            ));
        }
    }

    /// Check and evict expired items in the cache.
    ///
    /// The cheap path compares the hint against `now` and skips everything
    /// while nothing can have expired.  Otherwise the flag is taken (with
    /// exclusive access no other sweep can be running) and records are
    /// drained from the ring's front: an expired record's key is removed
    /// from the store; the first record found not yet expired is pushed back
    /// rather than discarded, its instant becomes the new hint, and the
    /// sweep stops, so that an entry only ever leaves by expiration or by
    /// capacity eviction.
    fn do_expire(&mut self, now: u64)
        requires
            old(self).wf(),
        ensures
            final(self).wf(),
            final(self).spec_capacity() == old(self).spec_capacity(),
            final(self).spec_ttl() == old(self).spec_ttl(),
            final(self).clock == old(self).clock,
            final(self).model() == expire_model(old(self).model(), now),
    {
        if self.oldest > now {
            // nothing can have expired yet
            return;
        }
        if self.expire_started {
            // another sweep is already running; skip
            return;
        }
        self.expire_started = true;
        let ghost m0 = self.model();
        let ghost cap0 = self.capacity;
        let ghost ttl0 = self.ttl;
        let ghost ck0 = self.clock;
        loop
            invariant_except_break
                self.capacity == cap0,
                self.ttl == ttl0,
                self.clock == ck0,
                cap0 >= 1,
                ring_cap(self.ring) == cap0 as nat,
                self.model().ring.len() <= cap0 as nat,
                sweep_model(self.model(), now) == sweep_model(m0, now),
            ensures
                self.capacity == cap0,
                self.ttl == ttl0,
                self.clock == ck0,
                ring_cap(self.ring) == cap0 as nat,
                self.model() == sweep_model(m0, now),
            decreases self.model().ring.len(),
        {
            let popped = ring_pop(&mut self.ring);
            match popped {
                None => {
                    break;
                },
                Some((k_old, t)) => {
                    if now <= t {
                        // not yet expired: return it to the ring and stop
                        let _restored = ring_push(&mut self.ring, k_old, t);
                        self.oldest = t;
                        break;
                    } else {
                        store_remove(&mut self.map, &k_old);
                    }
                },
            }
        }
        self.expire_started = false;
        proof {
            lemma_sweep_inv(m0, now, cap0 as nat);
        }
    }
}

} // verus!
