//! A growing set of `u64` keys, held in a hashbrown set with the FNV hasher.
use vstd::prelude::*;
use fnv::FnvBuildHasher;

verus! {

#[verifier::external_type_specification]
#[verifier::external_body]
#[verifier::reject_recursive_types(T)]
#[verifier::reject_recursive_types(S)]
pub struct ExHashSet<T, S>(hashbrown::HashSet<T, S>);

#[verifier::external_type_specification]
#[verifier::external_body]
#[verifier::reject_recursive_types(H)]
pub struct ExBuildHasherDefault<H>(std::hash::BuildHasherDefault<H>);

#[verifier::external_type_specification]
#[verifier::external_body]
pub struct ExFnvHasher(fnv::FnvHasher);

/// The keys held by a hashbrown set.
pub uninterp spec fn keys_of(s: hashbrown::HashSet<u64, FnvBuildHasher>) -> Set<u64>;

/// Relies on hashbrown::HashSet::with_hasher: a new set holds no key.
#[verifier::external_body]
fn empty_set() -> (r: hashbrown::HashSet<u64, FnvBuildHasher>)
    ensures
        keys_of(r) == Set::<u64>::empty(),
{
    hashbrown::HashSet::with_hasher(FnvBuildHasher::default())
}

/// Relies on hashbrown::HashSet::insert: the key is added, and the result
/// tells whether it was absent.
#[verifier::external_body]
fn insert_into(s: &mut hashbrown::HashSet<u64, FnvBuildHasher>, key: u64) -> (r: bool)
    ensures
        keys_of(*final(s)) == keys_of(*old(s)).insert(key),
        r == !keys_of(*old(s)).contains(key),
{
    s.insert(key)
}

/// Relies on hashbrown::HashSet::iter: each key of the set comes out once, in
/// an order that the set decides.
#[verifier::external_body]
fn keys_in_set_order(s: &hashbrown::HashSet<u64, FnvBuildHasher>) -> (r: Vec<u64>)
    ensures
        r@.to_set() == keys_of(*s),
        r@.no_duplicates(),
{
    s.iter().copied().collect()
}

/// A set of keys that only grows.
pub struct KeySet {
    keys: hashbrown::HashSet<u64, FnvBuildHasher>,
}

impl View for KeySet {
    type V = Set<u64>;

    closed spec fn view(&self) -> Set<u64> {
        keys_of(self.keys)
    }
}

impl KeySet {
    /// An empty set.
    pub fn new() -> (r: KeySet)
        ensures
            r@ == Set::<u64>::empty(),
    {
        KeySet { keys: empty_set() }
    }

    /// Adds `key`; returns whether it was absent.
    pub fn insert(&mut self, key: u64) -> (r: bool)
        ensures
            final(self)@ == old(self)@.insert(key),
            r == !old(self)@.contains(key),
    {
        insert_into(&mut self.keys, key)
    }

    /// Every key once, in an order that the underlying hash set decides.
    pub fn to_vec(&self) -> (r: Vec<u64>)
        ensures
            r@.to_set() == self@,
            r@.no_duplicates(),
    {
        keys_in_set_order(&self.keys)
    }
}

} // verus!
