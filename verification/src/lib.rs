//! Bloom filters: probabilistic sets that answer "possibly present" or
//! "definitely absent", built on a packed bit array.
//!
//! An element that was inserted is always reported as present. One that
//! was not may be reported as present too, with a probability that grows
//! with the number of bits that are set.

use std::collections::hash_map::DefaultHasher;
use std::hash::Hash;
use vstd::prelude::*;

pub mod bitset;
pub mod error;
pub mod hashing;
pub mod km_bloom_filter;
pub mod model;
pub mod single_hasher_bloom_filter;
pub mod sizing;

pub use crate::error::FilterError;
pub use crate::km_bloom_filter::{HasherBuilder, KMBloomFilter, SeededKMBloomFilter};
pub use crate::model::FilterView;
pub use crate::single_hasher_bloom_filter::SingleHasherBloomFilter;

verus! {

/// The filter of Kirsch and Mitzenmacher with the hasher of ahash and the
/// default hasher of std.
pub type DefaultBloomFilter = KMBloomFilter<ahash::AHasher, DefaultHasher>;

/// What every filter of this crate does with an element.
///
/// The hash values of an element are the hashers' to give. The contracts
/// here speak of some hash values, one for each hasher of the filter; each
/// filter says in its own contracts which values they are.
pub trait BloomFilter: View<V = FilterView> + Sized {
    /// Inserts `data`: sets the bit that each hasher picks for it.
    fn insert<T: Hash>(&mut self, data: &T)
        ensures
            exists|hashes: Seq<u64>|
                hashes.len() == old(self)@.number_of_hashers && final(self)@ == #[trigger] old(
                    self,
                )@.insert(hashes),
    ;

    /// Whether `data` is possibly present: whether the bit that each hasher
    /// picks for it is set.
    fn contains<T: Hash>(&self, data: &T) -> (present: bool)
        ensures
            exists|hashes: Seq<u64>|
                hashes.len() == self@.number_of_hashers && present == #[trigger] self@.contains(
                    hashes,
                ),
    ;
}

/// Access to the layout of a filter and to its bits.
pub trait BloomFilterData: View<V = FilterView> + Sized {
    /// The type that holds the bits.
    type DataType: View<V = Seq<bool>>;

    /// The number of hashers.
    fn number_of_hashers(&self) -> (count: usize)
        ensures
            count == self@.number_of_hashers,
    ;

    /// The number of bits in the region of each hasher.
    fn bits_per_hasher(&self) -> (count: usize)
        ensures
            count == self@.bits_per_hasher,
    ;

    /// The bits.
    fn data(&self) -> (data: &Self::DataType)
        ensures
            data@ == self@.bits,
    ;

    /// Replaces the bits by as many others. Bits of another number are refused.
    fn set_data(&mut self, data: Self::DataType) -> (result: Result<(), FilterError>)
        ensures
            data@.len() == old(self)@.bits.len() ==> result is Ok && final(self)@ == (FilterView {
                bits: data@,
                ..old(self)@
            }),
            data@.len() != old(self)@.bits.len() ==> result == Err::<(), FilterError>(
                FilterError::ConfigMismatch,
            ) && final(self)@ == old(self)@,
    ;
}

/// Comparison of the layouts of two filters.
pub trait ConfigEq: View<V = FilterView> {
    /// Whether two filters have the same number of hashers and the same
    /// region size.
    fn config_eq(&self, other: &Self) -> (equal: bool)
        ensures
            equal == self@.same_layout(other@),
    ;
}

impl<T: BloomFilterData> ConfigEq for T {
    /// Compares the numbers of hashers and the region sizes.
    fn config_eq(&self, other: &Self) -> (equal: bool) {
        self.number_of_hashers() == other.number_of_hashers() && self.bits_per_hasher()
            == other.bits_per_hasher()
    }
}

/// The union of two filters of one configuration.
pub trait Union: View<V = FilterView> + Sized {
    /// A new filter, with the layout of `self`, that has a bit set where
    /// `self` or `other` has it set, or `ConfigMismatch` where their
    /// configurations differ. Filters of different layouts always differ in
    /// configuration; what else a configuration holds is the filter's to say.
    fn union(&self, other: &Self) -> (result: Result<Self, FilterError>)
        ensures
            match result {
                Ok(filter) => self@.same_layout(other@) && filter@ == self@.union(other@),
                Err(error) => error == FilterError::ConfigMismatch,
            },
    ;
}

} // verus!


