//! Hash values of elements. The hashers are the caller's: any type with
//! `std::hash::Hasher`, fed with any value that has `std::hash::Hash`.
//! Nothing is known of the values they give, not even that they give the
//! same value twice. So the filters speak of the values that a hasher can
//! give to an element, and what they promise of an element's presence they
//! promise where each hasher gives the element one value only.

use std::hash::{Hash, Hasher};
use vstd::prelude::*;

verus! {

/// `ahash::AHasher`, the hasher of the ahash crate. Its state is not looked into.
#[verifier::external_type_specification]
#[verifier::external_body]
pub struct ExAHasher(ahash::AHasher);

/// `AHasher::new_with_keys` of ahash: a new hasher with the two keys given.
/// Nothing is stated of it.
pub assume_specification[ ahash::AHasher::new_with_keys ](key1: u128, key2: u128) -> (hasher:
    ahash::AHasher)
;

/// `Hash::hash` of std: feeds `data` into `hasher` and hands the hasher
/// back. Nothing is stated of the hasher's new state.
#[verifier::external_body]
pub(crate) fn feed<H: Hasher, T: Hash>(mut hasher: H, data: &T) -> (fed: H) {
    data.hash(&mut hasher);
    hasher
}

/// `Hasher::finish` of std: the hash value of what `hasher` was fed so far.
/// Nothing is stated of the value.
#[verifier::external_body]
pub(crate) fn finish<H: Hasher>(hasher: &H) -> (hash: u64) {
    hasher.finish()
}

/// Whether `hasher` is a hasher that ahash can make for the keys `key1` and
/// `key2`.
pub open spec fn made_with_keys(key1: u128, key2: u128, hasher: ahash::AHasher) -> bool {
    call_ensures(ahash::AHasher::new_with_keys, (key1, key2), hasher)
}

/// Whether `after` is a state in which `before` can be once it was fed `data`.
pub closed spec fn fed_to<H: Hasher, T: Hash>(before: H, data: T, after: H) -> bool {
    call_ensures(feed::<H, T>, (before, &data), after)
}

/// Whether `hash` is a value that `hasher` can give to what it was fed.
pub closed spec fn finished_to<H: Hasher>(hasher: H, hash: u64) -> bool {
    call_ensures(finish::<H>, (&hasher,), hash)
}

/// Whether `hash` is a value that a copy of `hasher` can give to `data`: a
/// value that the copy can give once it was fed `data`.
pub open spec fn hashed_to<H: Hasher + Clone, T: Hash>(hasher: H, data: T, hash: u64) -> bool {
    exists|fresh: H, fed: H|
        {
            &&& cloned(hasher, fresh)
            &&& #[trigger] fed_to(fresh, data, fed)
            &&& finished_to(fed, hash)
        }
}

/// Whether the copies of `hasher` give one value only to `data`.
pub open spec fn hashes_steadily<H: Hasher + Clone, T: Hash>(hasher: H, data: T) -> bool {
    forall|first: u64, second: u64|
        #[trigger] hashed_to(hasher, data, first) && #[trigger] hashed_to(hasher, data, second)
            ==> first == second
}

/// Whether the copies of two hashers can give the same values to `data`.
pub open spec fn hashes_alike<H: Hasher + Clone, T: Hash>(first: H, second: H, data: T) -> bool {
    forall|hash: u64|
        #![trigger hashed_to(first, data, hash)]
        #![trigger hashed_to(second, data, hash)]
        hashed_to(first, data, hash) <==> hashed_to(second, data, hash)
}

/// Whether `hash` is a value that ahash can give to `data` under the keys
/// `(key, key)`: a value that a hasher made for these keys can give once it
/// was fed `data`.
pub open spec fn keyed_to<T: Hash>(key: u128, data: T, hash: u64) -> bool {
    exists|fresh: ahash::AHasher, fed: ahash::AHasher|
        {
            &&& made_with_keys(key, key, fresh)
            &&& #[trigger] fed_to(fresh, data, fed)
            &&& finished_to(fed, hash)
        }
}

/// Whether ahash gives one value only to `data` under the keys `(key, key)`.
pub open spec fn keys_steadily<T: Hash>(key: u128, data: T) -> bool {
    forall|first: u64, second: u64|
        #[trigger] keyed_to(key, data, first) && #[trigger] keyed_to(key, data, second) ==> first
            == second
}

/// The hash value that a copy of `hasher` gives to `data`; `hasher` itself
/// stays as it is.
pub fn hash_with<H: Hasher + Clone, T: Hash>(hasher: &H, data: &T) -> (hash: u64)
    ensures
        hashed_to(*hasher, *data, hash),
{
    let fresh = hasher.clone();
    let ghost copy = fresh;
    let fed = feed(fresh, data);
    let hash = finish(&fed);
    assert(cloned(*hasher, copy) && fed_to(copy, *data, fed) && finished_to(fed, hash));
    hash
}

/// The hash value that ahash gives to `data` under the keys `(key, key)`.
pub fn keyed_hash<T: Hash>(key: u128, data: &T) -> (hash: u64)
    ensures
        keyed_to(key, *data, hash),
{
    let fresh = ahash::AHasher::new_with_keys(key, key);
    let ghost made = fresh;
    let fed = feed(fresh, data);
    let hash = finish(&fed);
    assert(made_with_keys(key, key, made) && fed_to(made, *data, fed) && finished_to(fed, hash));
    hash
}

} // verus!
