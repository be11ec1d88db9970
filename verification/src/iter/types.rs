//! Scratch membership set shared by the unique filter, the NA injectors and
//! the samplers: a hashed set of plain 64-bit keys.
use vstd::prelude::*;

verus! {

/// A set of 64-bit keys, hashed with a per-process random state.  The
/// underlying set type cannot be declared to the verifier (its allocator
/// parameter's trait bound is private to its crate), so the collection lives
/// in a private field of this struct; `key_set_contents` names what it holds
/// and every method the library calls is wrapped with a contract over that
/// name.
#[verifier::external_body]
pub struct KeySet {
    inner: hashbrown::HashSet<u64, ahash::RandomState>,
}

/// The set of keys a `KeySet` holds.
pub uninterp spec fn key_set_contents(s: KeySet) -> Set<u64>;

impl KeySet {
    /// Relies on `hashbrown::HashSet::with_capacity_and_hasher`: the new set
    /// is empty whatever capacity was reserved.
    #[verifier::external_body]
    pub fn with_capacity(capacity: usize) -> (s: KeySet)
        ensures
            key_set_contents(s) == Set::<u64>::empty(),
    {
        KeySet { inner: hashbrown::HashSet::with_capacity_and_hasher(capacity, ahash::RandomState::new()) }
    }

    /// Relies on `hashbrown::HashSet::insert`: afterwards the set holds `v`
    /// beside everything it held, and the result says whether `v` was new.
    #[verifier::external_body]
    pub fn insert(&mut self, v: u64) -> (newly: bool)
        ensures
            key_set_contents(*final(self)) == key_set_contents(*old(self)).insert(v),
            newly == !key_set_contents(*old(self)).contains(v),
    {
        self.inner.insert(v)
    }

    /// Relies on `hashbrown::HashSet::contains`.
    #[verifier::external_body]
    pub fn contains(&self, v: u64) -> (r: bool)
        ensures
            r == key_set_contents(*self).contains(v),
    {
        self.inner.contains(&v)
    }

    /// Relies on `hashbrown::HashSet::clone`: the copy holds the same keys.
    #[verifier::external_body]
    pub(crate) fn duplicate(&self) -> (r: KeySet)
        ensures
            key_set_contents(r) == key_set_contents(*self),
    {
        KeySet { inner: self.inner.clone() }
    }

    /// Relies on `hashbrown::HashSet::len`: the number of distinct keys held.
    #[verifier::external_body]
    pub fn len(&self) -> (n: usize)
        ensures
            n == key_set_contents(*self).len(),
    {
        self.inner.len()
    }

    /// Relies on `hashbrown::HashSet::iter`: every key held appears exactly
    /// once, in an order nothing is assumed about.
    #[verifier::external_body]
    pub fn to_vec(&self) -> (v: Vec<u64>)
        ensures
            v@.no_duplicates(),
            v@.to_set() == key_set_contents(*self),
    {
        self.inner.iter().copied().collect()
    }
}

} // verus!
