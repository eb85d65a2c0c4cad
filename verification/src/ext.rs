//! Declarations of and trusted wrappers around the outside crates that the
//! cache is built on: the sharded concurrent store, the bounded arrival ring,
//! its hasher, and the monotonic clock.
//!
//! The store and the queue synchronize internally, so their own methods take
//! shared references.  The wrappers take exclusive references instead: under
//! exclusive access each call is the only mutation in flight, and the
//! contracts can then relate the contents before and after it.

use vstd::prelude::*;

use ahash::RandomState;
use crossbeam_queue::ArrayQueue;
use dashmap::DashMap;
use std::time::{Duration, Instant};

verus! {

/// `std::time::Instant`, the anchor of the cache's clock.
#[verifier::external_type_specification]
#[verifier::external_body]
pub struct ExInstant(Instant);

/// `ahash::RandomState`, the hasher the concurrent store is built with.
#[verifier::external_type_specification]
#[verifier::external_body]
pub struct ExRandomState(RandomState);

/// `dashmap::DashMap`, the sharded concurrent store.
#[verifier::external_type_specification]
#[verifier::external_body]
#[verifier::reject_recursive_types(K)]
#[verifier::reject_recursive_types(V)]
#[verifier::reject_recursive_types(S)]
pub struct ExDashMap<K, V, S>(DashMap<K, V, S>);

/// `crossbeam_queue::ArrayQueue`, the bounded arrival ring.
#[verifier::external_type_specification]
#[verifier::external_body]
#[verifier::reject_recursive_types(T)]
pub struct ExArrayQueue<T>(ArrayQueue<T>);

/// The concurrent store at the key and payload types the cache uses.
pub type StoreMap = DashMap<String, (u64, u64), RandomState>;

/// The arrival ring at the record type the cache uses.
pub type RingQueue = ArrayQueue<(String, u64)>;

/// What the concurrent store holds: each key's (payload, expiration instant).
pub uninterp spec fn map_view(m: StoreMap) -> Map<Seq<char>, (u64, u64)>;

/// What the arrival ring holds, front first: (key, expiration instant)
/// records.
pub uninterp spec fn ring_view(q: RingQueue) -> Seq<(Seq<char>, u64)>;

/// The fixed capacity the arrival ring was created with.
pub uninterp spec fn ring_cap(q: RingQueue) -> nat;

/// What `Duration::as_nanos` returns for a duration: a function of the
/// duration alone.
pub uninterp spec fn nanos_of(d: Duration) -> nat;

/// Relies on `std::time::Instant::now`: an opaque reading of the monotonic
/// clock.
#[verifier::external_body]
pub(crate) fn instant_now() -> Instant {
    Instant::now()
}

/// Relies on `std::time::Instant::elapsed`: the time passed since `i`.  The
/// result depends on the moment of the call, so nothing is promised of it.
#[verifier::external_body]
pub(crate) fn instant_elapsed(i: &Instant) -> Duration {
    i.elapsed()
}

/// Relies on `core::time::Duration::as_nanos`: the total nanoseconds of `d`,
/// a function of `d` alone, clamped here into `u64`.
#[verifier::external_body]
pub(crate) fn duration_to_nanos(d: &Duration) -> (r: u64)
    ensures
        r as nat == if nanos_of(*d) <= u64::MAX as nat {
            nanos_of(*d)
        } else {
            u64::MAX as nat
        },
{
    match u64::try_from(d.as_nanos()) {
        Ok(n) => n,
        Err(_) => u64::MAX,
    }
}

/// The cache's clock.  Instants handed out by it are the nanoseconds elapsed
/// since the anchor was taken, saturating at `u64::MAX`.
pub(crate) struct Clock {
    start: Instant,
}

impl Clock {
    /// Anchor a new clock at the present moment.
    pub(crate) fn new() -> Clock {
        Clock { start: instant_now() }
    }

    /// The current instant on this clock.  Its value depends on the moment of
    /// the call; callers state what holds of every outcome.
    pub(crate) fn now_nanos(&self) -> u64 {
        let d = instant_elapsed(&self.start);
        duration_to_nanos(&d)
    }
}

/// Relies on `ahash::RandomState::new`: a freshly seeded hasher.  Its seeds
/// are random, so nothing is promised of it.
#[verifier::external_body]
pub(crate) fn hasher_new() -> RandomState {
    RandomState::new()
}

/// Relies on `dashmap::DashMap::with_capacity_and_hasher`: a new, empty map.
#[verifier::external_body]
pub(crate) fn store_new(capacity: usize, hasher: RandomState) -> (m: StoreMap)
    ensures
        (map_view(m) == Map::<Seq<char>, (u64, u64)>::empty()),
{
    DashMap::with_capacity_and_hasher(capacity, hasher)
}

/// Relies on `dashmap::DashMap::get`: the value stored under `k`, if any,
/// handed out as a copy.
#[verifier::external_body]
pub(crate) fn store_get(m: &StoreMap, k: &String) -> (r: Option<(u64, u64)>)
    ensures
        r == if map_view(*m).contains_key(k@) {
            Some(map_view(*m)[k@])
        } else {
            None::<(u64, u64)>
        },
{
    match m.get(k) {
        Some(entry) => Some(*entry.value()),
        None => None,
    }
}

/// Relies on `dashmap::DashMap::insert`: stores `v` under `k`, replacing any
/// previous value.
#[verifier::external_body]
pub(crate) fn store_insert(m: &mut StoreMap, k: String, v: (u64, u64))
    ensures
        map_view(*final(m)) == map_view(*old(m)).insert(k@, v),
{
    m.insert(k, v);
}

/// Relies on `dashmap::DashMap::remove`: removes the entry under `k`, if any.
#[verifier::external_body]
pub(crate) fn store_remove(m: &mut StoreMap, k: &String)
    ensures
        map_view(*final(m)) == map_view(*old(m)).remove(k@),
{
    m.remove(k);
}

/// Relies on `crossbeam_queue::ArrayQueue::new`: a new, empty queue of the
/// given capacity.  The queue refuses a zero or near-`usize::MAX` capacity by
/// panicking, so those are left out here.
#[verifier::external_body]
pub(crate) fn ring_new(capacity: usize) -> (q: RingQueue)
    requires
        1 <= capacity < usize::MAX / 2,
    ensures
        (ring_view(q) == Seq::<(Seq<char>, u64)>::empty()),
        ring_cap(q) == capacity as nat,
{
    ArrayQueue::new(capacity)
}

/// Relies on `crossbeam_queue::ArrayQueue::push`: appends the record at the
/// back, or hands it back as the error when the queue is full.
#[verifier::external_body]
pub(crate) fn ring_push(q: &mut RingQueue, k: String, t: u64) -> (r: Result<(), (String, u64)>)
    ensures
        ring_cap(*final(q)) == ring_cap(*old(q)),
        ring_view(*old(q)).len() < ring_cap(*old(q)) ==> r is Ok && ring_view(*final(q))
            == ring_view(*old(q)).push((k@, t)),
        ring_view(*old(q)).len() >= ring_cap(*old(q)) ==> r is Err && ring_view(*final(q))
            == ring_view(*old(q)),
{
    q.push((k, t))
}

/// Relies on `crossbeam_queue::ArrayQueue::pop`: takes the front record, or
/// returns `None` when the queue is empty.
#[verifier::external_body]
pub(crate) fn ring_pop(q: &mut RingQueue) -> (r: Option<(String, u64)>)
    ensures
        ring_cap(*final(q)) == ring_cap(*old(q)),
        ring_view(*old(q)).len() == 0 ==> r is None && ring_view(*final(q)) == ring_view(*old(q)),
        ring_view(*old(q)).len() > 0 ==> (r matches Some(p) && p.0@ == ring_view(*old(q))[0].0
            && p.1 == ring_view(*old(q))[0].1 && ring_view(*final(q)) == ring_view(
            *old(q),
        ).drop_first()),
{
    q.pop()
}

/// Relies on `crossbeam_queue::ArrayQueue::len`: the number of records held.
#[verifier::external_body]
pub(crate) fn ring_len(q: &RingQueue) -> (r: usize)
    ensures
        r as nat == ring_view(*q).len(),
{
    q.len()
}

} // verus!
