use vstd::prelude::*;

verus! {

/// A by-value snapshot of a cache entry.
///
/// Wraps a payload with the expiration instant recorded for it (nanoseconds
/// on the cache's own clock) and an expired flag computed at the moment the
/// snapshot was taken.  The snapshot is detached: mutating it never touches
/// the stored copy.
pub struct Value<V> {
    value: V,
    expire_at: u64,
    is_expired: bool,
}

impl<V> Value<V> {
    /// The payload carried by this snapshot.
    pub closed spec fn inner(&self) -> V {
        self.value
    }

    /// The expiration instant recorded for this snapshot.
    pub closed spec fn spec_expire_at(&self) -> u64 {
        self.expire_at
    }

    /// Whether the snapshot was already expired when it was taken.
    pub closed spec fn spec_is_expired(&self) -> bool {
        self.is_expired
    }

    /// Build a snapshot from its parts.
    pub(crate) fn snapshot(value: V, expire_at: u64, is_expired: bool) -> (r: Value<V>)
        ensures
            r.inner() == value,
            r.spec_expire_at() == expire_at,
            r.spec_is_expired() == is_expired,
    {
        Value { value, expire_at, is_expired }
    }

    /// Get a reference to the inner value.
    pub fn get(&self) -> (r: &V)
        ensures
            *r == self.inner(),
    {
        &self.value
    }

    /// Get a mutable reference to the inner value.
    pub fn get_mut(&mut self) -> (r: &mut V)
        ensures
            *r == old(self).inner(),
            final(self).inner() == *final(r),
            final(self).spec_expire_at() == old(self).spec_expire_at(),
            final(self).spec_is_expired() == old(self).spec_is_expired(),
    {
        &mut self.value
    }

    /// Consumes the `Value` and returns its inner value.
    pub fn into_inner(self) -> (r: V)
        ensures
            r == self.inner(),
    {
        self.value
    }

    /// Check if the value is expired.
    pub fn is_expired(&self) -> (r: bool)
        ensures
            r == self.spec_is_expired(),
    {
        self.is_expired
    }

    /// Get the expiration timestamp of the value.
    pub fn expire_at(&self) -> (r: u64)
        ensures
            r == self.spec_expire_at(),
    {
        self.expire_at
    }
}

/// The observable content of an optional snapshot: payload, expiration
/// instant, and expired flag.
pub open spec fn value_triple<V>(r: Option<Value<V>>) -> Option<(V, u64, bool)> {
    match r {
        Some(v) => Some((v.inner(), v.spec_expire_at(), v.spec_is_expired())),
        None => None,
    }
}

} // verus!
