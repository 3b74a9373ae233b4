//! The index of a repository: a hash map whose keys are hashes already, so that
//! `nohash_hasher::NoHashHasher` takes them as they are.
use std::collections::HashMap;
use std::hash::BuildHasherDefault;

use nohash_hasher::NoHashHasher;
use vstd::prelude::*;

verus! {

/// `nohash_hasher::NoHashHasher`, whose inside is not looked at.
#[verifier::external_type_specification]
#[verifier::external_body]
#[verifier::reject_recursive_types(T)]
pub struct ExNoHashHasher<T>(NoHashHasher<T>);

/// `std::hash::BuildHasherDefault`, whose inside is not looked at.
#[verifier::external_type_specification]
#[verifier::external_body]
#[verifier::reject_recursive_types(H)]
pub struct ExBuildHasherDefault<H>(BuildHasherDefault<H>);

/// A map from board hashes to places.
pub type BoardIndex = HashMap<u64, usize, BuildHasherDefault<NoHashHasher<u64>>>;

/// What an index holds.
#[verifier::opaque]
pub open spec fn index_contents(index: BoardIndex) -> Map<u64, usize> {
    index@
}

/// An index that holds nothing.
pub(crate) fn new_index() -> (r: BoardIndex)
    ensures
        (index_contents(r) == Map::<u64, usize>::empty()),
{
    reveal(index_contents);
    HashMap::default()
}

/// `HashMap::get` with `NoHashHasher`: the value held for a key, if there is one. The
/// hasher hands on the single `u64` that the key writes, so that equal keys meet.
#[verifier::external_body]
pub(crate) fn index_get(index: &BoardIndex, key: u64) -> (r: Option<usize>)
    ensures
        r == (if index_contents(*index).contains_key(key) {
            Some(index_contents(*index)[key])
        } else {
            None
        }),
{
    index.get(&key).copied()
}

/// `HashMap::insert` with `NoHashHasher`: the key holds the value from now on, and all
/// other keys hold what they held.
#[verifier::external_body]
pub(crate) fn index_insert(index: &mut BoardIndex, key: u64, value: usize)
    ensures
        index_contents(*final(index)) == index_contents(*old(index)).insert(key, value),
{
    index.insert(key, value);
}

} // verus!
