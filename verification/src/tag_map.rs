//! The hash map from tags to line slots used by the fully associative cache:
//! std's `HashMap` with the non-randomised hasher of `rustc-hash`.
use vstd::prelude::*;
use rustc_hash::{FxBuildHasher, FxHashMap};

verus! {

/// `rustc_hash::FxBuildHasher`, a unit struct whose hashers are deterministic.
#[verifier::external_type_specification]
#[verifier::external_body]
pub struct ExFxBuildHasher(FxBuildHasher);

/// Calls `HashMap::with_capacity_and_hasher` with `FxBuildHasher`. Trusted to give an
/// empty map, as std documents for this constructor.
#[verifier::external_body]
pub(crate) fn tag_map_with_capacity(capacity: usize) -> (map: FxHashMap<u64, usize>)
    ensures
        map@.dom() == Set::<u64>::empty(),
{
    FxHashMap::with_capacity_and_hasher(capacity, FxBuildHasher)
}

/// Calls `HashMap::get` and copies the value out. Trusted to give the value that the
/// map holds for `key`, and `None` where it holds none, as std documents.
#[verifier::external_body]
pub(crate) fn tag_map_get(m: &FxHashMap<u64, usize>, key: u64) -> (r: Option<usize>)
    ensures
        r == (if m@.contains_key(key) { Some(m@[key]) } else { None::<usize> }),
{
    m.get(&key).copied()
}

/// Calls `HashMap::insert`, dropping the value it hands back. Trusted to map `key` to
/// `value` and leave every other key as it was, as std documents.
#[verifier::external_body]
pub(crate) fn tag_map_insert(m: &mut FxHashMap<u64, usize>, key: u64, value: usize)
    ensures
        final(m)@ == old(m)@.insert(key, value),
{
    m.insert(key, value);
}

/// Calls `HashMap::remove`, dropping the value it hands back. Trusted to remove `key`
/// and leave every other key as it was, as std documents.
#[verifier::external_body]
pub(crate) fn tag_map_remove(m: &mut FxHashMap<u64, usize>, key: u64)
    ensures
        final(m)@ == old(m)@.remove(key),
{
    m.remove(&key);
}

} // verus!
