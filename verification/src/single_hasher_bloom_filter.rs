//! The filter with one hasher of ahash for each region, keyed by the
//! region's number.

use std::hash::Hash;
use vstd::prelude::*;

use crate::bitset::Bitset;
use crate::error::FilterError;
use crate::hashing::{keyed_hash, keyed_to, keys_steadily};
use crate::model::{
    lemma_insert_all_keeps_contained, lemma_insert_all_keeps_layout, lemma_insert_is_idempotent,
    lemma_insert_none, lemma_insert_step, lemma_inserted_is_contained,
    lemma_region_index_in_bounds, lemma_region_index_in_region, region_index, FilterView,
};
use crate::sizing::{allocate, sized, sizing_accepted};
use crate::{BloomFilter, BloomFilterData, Union};

verus! {

/// Whether each of `hashes` is a value that the hasher of its place can give
/// to `data`.
pub open spec fn all_keyed_to<T: Hash>(data: T, hashes: Seq<u64>) -> bool {
    forall|i: int| 0 <= i < hashes.len() ==> keyed_to(i as u128, data, #[trigger] hashes[i])
}

/// Whether each of the first `number_of_hashers` hashers gives one value
/// only to `data`.
pub open spec fn all_keys_steadily<T: Hash>(number_of_hashers: nat, data: T) -> bool {
    forall|i: int| 0 <= i < number_of_hashers ==> #[trigger] keys_steadily(i as u128, data)
}

/// A Bloom filter whose hasher `i` is the hasher of ahash with the keys `(i, i)`.
#[derive(Debug)]
pub struct SingleHasherBloomFilter {
    number_of_hashers: usize,
    bitset: Bitset,
    bits_per_hasher: usize,
}

impl View for SingleHasherBloomFilter {
    type V = FilterView;

    closed spec fn view(&self) -> FilterView {
        FilterView {
            number_of_hashers: self.number_of_hashers as nat,
            bits_per_hasher: self.bits_per_hasher as nat,
            bits: self.bitset@,
        }
    }
}

impl Clone for SingleHasherBloomFilter {
    /// A filter of its own with the same layout and the same bits.
    fn clone(&self) -> (copy: Self)
        ensures
            copy@ == self@,
    {
        proof {
            use_type_invariant(self);
        }
        SingleHasherBloomFilter {
            number_of_hashers: self.number_of_hashers,
            bitset: self.bitset.clone(),
            bits_per_hasher: self.bits_per_hasher,
        }
    }
}

impl SingleHasherBloomFilter {
    /// What holds of every filter: its view is well formed.
    #[verifier::type_invariant]
    pub open spec fn inv(&self) -> bool {
        self@.wf()
    }

    /// Whether `after` is what `self` becomes when `data` is inserted: the
    /// filter with the bits set that the hashers pick for hash values that
    /// they can give to `data`.
    pub open spec fn inserted<T: Hash>(&self, data: T, after: &Self) -> bool {
        exists|hashes: Seq<u64>|
            {
                &&& hashes.len() == self@.number_of_hashers
                &&& all_keyed_to(data, hashes)
                &&& after@ == #[trigger] self@.insert(hashes)
            }
    }

    /// Whether `present` is an answer of the filter to the question whether
    /// it holds `data`: yes, where each hasher finds the bit set that it
    /// picks for a hash value that it can give to `data`, and no, where one
    /// of them finds its bit clear.
    pub open spec fn looked_up<T: Hash>(&self, data: T, present: bool) -> bool {
        if present {
            exists|hashes: Seq<u64>|
                {
                    &&& hashes.len() == self@.number_of_hashers
                    &&& all_keyed_to(data, hashes)
                    &&& #[trigger] self@.contains(hashes)
                }
        } else {
            exists|i: int, hash: u64|
                {
                    &&& 0 <= i < self@.number_of_hashers
                    &&& #[trigger] keyed_to(i as u128, data, hash)
                    &&& !self@.bits[region_index(i, self@.bits_per_hasher as int, hash)]
                }
        }
    }

    /// A filter with no bit set.
    ///
    /// `bit_count` is the number of bits that the filter needs in all for
    /// `desired_capacity` elements, and `number_of_hashers` the number of
    /// hashers asked for.
    pub fn new(desired_capacity: usize, bit_count: usize, number_of_hashers: usize) -> (result:
        Result<Self, FilterError>)
        ensures
            match result {
                Ok(filter) => {
                    &&& sizing_accepted(desired_capacity, bit_count, number_of_hashers)
                    &&& filter@ == sized(bit_count, number_of_hashers)
                },
                Err(error) => {
                    &&& error == FilterError::InvalidArgument
                    &&& !sizing_accepted(desired_capacity, bit_count, number_of_hashers)
                },
            },
    {
        match allocate(desired_capacity, bit_count, number_of_hashers) {
            Ok((number_of_hashers, bits_per_hasher, bitset)) => Ok(
                SingleHasherBloomFilter { number_of_hashers, bitset, bits_per_hasher },
            ),
            Err(error) => Err(error),
        }
    }

    /// Whether two filters have the same number of hashers and the same
    /// region size.
    pub fn eq_configuration(&self, other: &Self) -> (equal: bool)
        ensures
            equal == self@.same_layout(other@),
    {
        self.number_of_hashers == other.number_of_hashers && self.bits_per_hasher
            == other.bits_per_hasher
    }

    /// A new filter, with the layout of `self`, that has a bit set where both
    /// `self` and `other` have it set. It reports as present what both report
    /// as present. It may report more elements as present than a filter into
    /// which only the common elements were inserted.
    pub fn intersect(&self, other: &Self) -> (result: Result<Self, FilterError>)
        ensures
            self@.same_layout(other@) ==> result is Ok && result->Ok_0@ == self@.intersect(
                other@,
            ),
            !self@.same_layout(other@) ==> result is Err && result->Err_0
                == FilterError::ConfigMismatch,
    {
        proof {
            use_type_invariant(self);
            use_type_invariant(other);
        }
        if !self.eq_configuration(other) {
            return Err(FilterError::ConfigMismatch);
        }
        match self.bitset.intersect(&other.bitset) {
            Ok(bitset) => Ok(
                SingleHasherBloomFilter {
                    number_of_hashers: self.number_of_hashers,
                    bitset,
                    bits_per_hasher: self.bits_per_hasher,
                },
            ),
            Err(error) => Err(error),
        }
    }

    /// The index of the bit that hasher `i` picks for an element that it
    /// hashed to `hash`.
    pub fn index(i: usize, bits_per_hash: usize, hash: u64) -> (index: usize)
        requires
            bits_per_hash > 0,
            (i + 1) * bits_per_hash <= usize::MAX,
        ensures
            index == region_index(i as int, bits_per_hash as int, hash),
    {
        proof {
            lemma_region_index_in_region(i as int, bits_per_hash as int, hash);
        }
        i * bits_per_hash + (hash % (bits_per_hash as u64)) as usize
    }

    /// Inserts the element to which hasher `i` gives the hash value
    /// `hashes[i]`. There has to be one hash value for each hasher.
    pub fn insert_hashes(&mut self, hashes: &[u64]) -> (result: Result<(), FilterError>)
        ensures
            hashes@.len() == old(self)@.number_of_hashers ==> result is Ok && final(self)@ == old(
                self,
            )@.insert(hashes@),
            hashes@.len() != old(self)@.number_of_hashers ==> result == Err::<(), FilterError>(
                FilterError::InvalidArgument,
            ) && final(self)@ == old(self)@,
    {
        if hashes.len() != self.number_of_hashers {
            return Err(FilterError::InvalidArgument);
        }
        proof {
            lemma_insert_none(self@);
        }
        let mut i: usize = 0;
        while i < self.number_of_hashers
            invariant
                i <= self.number_of_hashers,
                self.number_of_hashers == old(self).number_of_hashers,
                self.bits_per_hasher == old(self).bits_per_hasher,
                hashes@.len() == self.number_of_hashers,
                self@ == old(self)@.insert(hashes@.take(i as int)),
            decreases self.number_of_hashers - i,
        {
            proof {
                use_type_invariant(&*self);
                self.bitset.lemma_len_fits();
                lemma_region_index_in_bounds(
                    i as int,
                    self.number_of_hashers as int,
                    self.bits_per_hasher as int,
                    hashes@[i as int],
                );
                lemma_insert_step(old(self)@, hashes@, i as int);
            }
            let index = Self::index(i, self.bits_per_hasher, hashes[i]);
            let _ = self.bitset.set(index, true);
            i = i + 1;
        }
        proof {
            assert(hashes@.take(i as int) =~= hashes@);
        }
        Ok(())
    }

    /// Whether the element to which hasher `i` gives the hash value
    /// `hashes[i]` is possibly present. Stops at the first bit that is clear.
    /// There has to be one hash value for each hasher.
    pub fn contains_hashes(&self, hashes: &[u64]) -> (result: Result<bool, FilterError>)
        ensures
            hashes@.len() == self@.number_of_hashers ==> result == Ok::<bool, FilterError>(
                self@.contains(hashes@),
            ),
            hashes@.len() != self@.number_of_hashers ==> result == Err::<bool, FilterError>(
                FilterError::InvalidArgument,
            ),
    {
        if hashes.len() != self.number_of_hashers {
            return Err(FilterError::InvalidArgument);
        }
        proof {
            use_type_invariant(self);
            self.bitset.lemma_len_fits();
        }
        let mut i: usize = 0;
        while i < self.number_of_hashers
            invariant
                i <= self.number_of_hashers,
                self@.wf(),
                self@.bits.len() <= usize::MAX,
                hashes@.len() == self.number_of_hashers,
                forall|j: int|
                    0 <= j < i ==> self@.bits[#[trigger] region_index(
                        j,
                        self@.bits_per_hasher as int,
                        hashes@[j],
                    )],
            decreases self.number_of_hashers - i,
        {
            proof {
                lemma_region_index_in_bounds(
                    i as int,
                    self.number_of_hashers as int,
                    self.bits_per_hasher as int,
                    hashes@[i as int],
                );
            }
            let index = Self::index(i, self.bits_per_hasher, hashes[i]);
            match self.bitset.get(index) {
                Ok(true) => {},
                _ => {
                    return Ok(false);
                },
            }
            i = i + 1;
        }
        Ok(true)
    }
}

impl BloomFilter for SingleHasherBloomFilter {
    /// Inserts `data` by the hash value that each hasher gives it.
    fn insert<T: Hash>(&mut self, data: &T)
        ensures
            old(self).inserted(*data, final(self)),
    {
        let ghost mut hashes = Seq::<u64>::empty();
        proof {
            lemma_insert_none(self@);
        }
        let mut i: usize = 0;
        while i < self.number_of_hashers
            invariant
                i <= self.number_of_hashers,
                self.number_of_hashers == old(self).number_of_hashers,
                self.bits_per_hasher == old(self).bits_per_hasher,
                hashes.len() == i,
                all_keyed_to(*data, hashes),
                self@ == old(self)@.insert(hashes),
            decreases self.number_of_hashers - i,
        {
            let hash = keyed_hash(i as u128, data);
            proof {
                use_type_invariant(&*self);
                self.bitset.lemma_len_fits();
                lemma_region_index_in_bounds(
                    i as int,
                    self.number_of_hashers as int,
                    self.bits_per_hasher as int,
                    hash,
                );
                let longer = hashes.push(hash);
                assert(longer.take(i as int) =~= hashes);
                assert(longer.take(i + 1) =~= longer);
                lemma_insert_step(old(self)@, longer, i as int);
            }
            let index = Self::index(i, self.bits_per_hasher, hash);
            let _ = self.bitset.set(index, true);
            proof {
                hashes = hashes.push(hash);
            }
            i = i + 1;
        }
    }

    /// Looks `data` up by the hash value that each hasher gives it. Stops at
    /// the first bit that is clear, and does not hash for the regions after it.
    fn contains<T: Hash>(&self, data: &T) -> (present: bool)
        ensures
            self.looked_up(*data, present),
    {
        let ghost mut hashes = Seq::<u64>::empty();
        proof {
            use_type_invariant(self);
            self.bitset.lemma_len_fits();
        }
        let mut i: usize = 0;
        while i < self.number_of_hashers
            invariant
                i <= self.number_of_hashers,
                self@.wf(),
                self@.bits.len() <= usize::MAX,
                hashes.len() == i,
                all_keyed_to(*data, hashes),
                self@.contains(hashes),
            decreases self.number_of_hashers - i,
        {
            let hash = keyed_hash(i as u128, data);
            proof {
                lemma_region_index_in_bounds(
                    i as int,
                    self.number_of_hashers as int,
                    self.bits_per_hasher as int,
                    hash,
                );
            }
            let index = Self::index(i, self.bits_per_hasher, hash);
            match self.bitset.get(index) {
                Ok(true) => {},
                _ => {
                    proof {
                        let rest = Seq::new((self.number_of_hashers - i - 1) as nat, |j: int| 0u64);
                        let all = hashes.push(hash) + rest;
                        assert(all[i as int] == hash);
                        assert(!self@.bits[region_index(
                            i as int,
                            self@.bits_per_hasher as int,
                            all[i as int],
                        )]);
                        assert(all.len() == self@.number_of_hashers && false == self@.contains(
                            all,
                        ));
                        assert(keyed_to(i as u128, *data, hash));
                    }
                    return false;
                },
            }
            proof {
                hashes = hashes.push(hash);
            }
            i = i + 1;
        }
        true
    }
}

impl Union for SingleHasherBloomFilter {
    /// A new filter, with the layout of `self`, that has a bit set where
    /// `self` or `other` has it set. It reports as present what either
    /// reports as present.
    fn union(&self, other: &Self) -> (result: Result<Self, FilterError>)
        ensures
            self@.same_layout(other@) ==> result is Ok && result->Ok_0@ == self@.union(other@),
            !self@.same_layout(other@) ==> result is Err && result->Err_0
                == FilterError::ConfigMismatch,
    {
        proof {
            use_type_invariant(self);
            use_type_invariant(other);
        }
        if !self.eq_configuration(other) {
            return Err(FilterError::ConfigMismatch);
        }
        match self.bitset.union(&other.bitset) {
            Ok(bitset) => Ok(
                SingleHasherBloomFilter {
                    number_of_hashers: self.number_of_hashers,
                    bitset,
                    bits_per_hasher: self.bits_per_hasher,
                },
            ),
            Err(error) => Err(error),
        }
    }
}

impl BloomFilterData for SingleHasherBloomFilter {
    type DataType = Bitset;

    /// The number of hashers.
    fn number_of_hashers(&self) -> (count: usize) {
        self.number_of_hashers
    }

    /// The number of bits in the region of each hasher.
    fn bits_per_hasher(&self) -> (count: usize) {
        self.bits_per_hasher
    }

    /// The bits.
    fn data(&self) -> (data: &Bitset) {
        &self.bitset
    }

    /// Replaces the bits by as many others.
    fn set_data(&mut self, data: Bitset) -> (result: Result<(), FilterError>) {
        proof {
            use_type_invariant(&*self);
        }
        if data.len() != self.bitset.len() {
            return Err(FilterError::ConfigMismatch);
        }
        self.bitset = data;
        Ok(())
    }
}

/// What the contracts above say of elements where the hashers give one
/// value only to each of them.
impl SingleHasherBloomFilter {
    /// Where each hasher gives one value only to `data`, a filter that
    /// answers that it holds `data` has the bit set that each hasher picks
    /// for any value that it can give to `data`.
    proof fn lemma_found_has_every_bit<T: Hash>(filter: Self, data: T, i: int, hash: u64)
        requires
            all_keys_steadily(filter@.number_of_hashers, data),
            filter.looked_up(data, true),
            0 <= i < filter@.number_of_hashers,
            keyed_to(i as u128, data, hash),
        ensures
            filter@.bits[region_index(i, filter@.bits_per_hasher as int, hash)],
    {
        let hashes = choose|hashes: Seq<u64>|
            {
                &&& hashes.len() == filter@.number_of_hashers
                &&& all_keyed_to(data, hashes)
                &&& #[trigger] filter@.contains(hashes)
            };
        assert(keys_steadily(i as u128, data));
        assert(keyed_to(i as u128, data, hashes[i]));
        assert(filter@.bits[region_index(i, filter@.bits_per_hasher as int, hashes[i])]);
    }

    /// No false negatives: where each hasher gives one value only to `data`,
    /// a filter into which `data` was inserted answers that it holds `data`,
    /// whatever it held before and whatever was inserted into it since.
    pub proof fn lemma_inserted_element_is_found<T: Hash>(
        before: Self,
        data: T,
        after: Self,
        since: Seq<Seq<u64>>,
        later: Self,
        present: bool,
    )
        requires
            before@.wf(),
            all_keys_steadily(before@.number_of_hashers, data),
            before.inserted(data, &after),
            later@ == after@.insert_all(since),
            later.looked_up(data, present),
        ensures
            present,
    {
        let hashes = choose|hashes: Seq<u64>|
            {
                &&& hashes.len() == before@.number_of_hashers
                &&& all_keyed_to(data, hashes)
                &&& after@ == #[trigger] before@.insert(hashes)
            };
        lemma_inserted_is_contained(before@, hashes);
        lemma_insert_all_keeps_contained(after@, since, hashes);
        lemma_insert_all_keeps_layout(after@, since);
        assert(later.looked_up(data, true));
        if !present {
            let (i, hash) = choose|i: int, hash: u64|
                {
                    &&& 0 <= i < later@.number_of_hashers
                    &&& #[trigger] keyed_to(i as u128, data, hash)
                    &&& !later@.bits[region_index(i, later@.bits_per_hasher as int, hash)]
                };
            Self::lemma_found_has_every_bit(later, data, i, hash);
        }
    }

    /// Insertion is idempotent: where each hasher gives one value only to
    /// `data`, to insert `data` a second time changes no bit, and so no
    /// answer of the filter.
    pub proof fn lemma_inserting_again_changes_nothing<T: Hash>(
        before: Self,
        data: T,
        after: Self,
        again: Self,
    )
        requires
            all_keys_steadily(before@.number_of_hashers, data),
            before.inserted(data, &after),
            after.inserted(data, &again),
        ensures
            again@ == after@,
    {
        let first = choose|hashes: Seq<u64>|
            {
                &&& hashes.len() == before@.number_of_hashers
                &&& all_keyed_to(data, hashes)
                &&& after@ == #[trigger] before@.insert(hashes)
            };
        let second = choose|hashes: Seq<u64>|
            {
                &&& hashes.len() == after@.number_of_hashers
                &&& all_keyed_to(data, hashes)
                &&& again@ == #[trigger] after@.insert(hashes)
            };
        assert forall|i: int| 0 <= i < first.len() implies first[i] == second[i] by {
            assert(keys_steadily(i as u128, data));
        }
        assert(first =~= second);
        lemma_insert_is_idempotent(before@, first);
    }

    /// Where each hasher gives one value only to `data`, the union of two
    /// filters answers that it holds `data` if one of the two does.
    pub proof fn lemma_union_finds_element<T: Hash>(
        a: Self,
        b: Self,
        union: Self,
        data: T,
        present: bool,
    )
        requires
            a@.wf(),
            b@.wf(),
            a@.same_layout(b@),
            union@ == a@.union(b@),
            all_keys_steadily(a@.number_of_hashers, data),
            a.looked_up(data, true) || b.looked_up(data, true),
            union.looked_up(data, present),
        ensures
            present,
    {
        if !present {
            let (i, hash) = choose|i: int, hash: u64|
                {
                    &&& 0 <= i < union@.number_of_hashers
                    &&& #[trigger] keyed_to(i as u128, data, hash)
                    &&& !union@.bits[region_index(i, union@.bits_per_hasher as int, hash)]
                };
            lemma_region_index_in_bounds(
                i,
                a@.number_of_hashers as int,
                a@.bits_per_hasher as int,
                hash,
            );
            if a.looked_up(data, true) {
                Self::lemma_found_has_every_bit(a, data, i, hash);
            } else {
                Self::lemma_found_has_every_bit(b, data, i, hash);
            }
        }
    }

    /// Where each hasher gives one value only to `data`, the intersection of
    /// two filters answers that it holds `data` if both of them do: so for
    /// each element that was inserted into both.
    pub proof fn lemma_intersection_finds_element<T: Hash>(
        a: Self,
        b: Self,
        intersection: Self,
        data: T,
        present: bool,
    )
        requires
            a@.wf(),
            b@.wf(),
            a@.same_layout(b@),
            intersection@ == a@.intersect(b@),
            all_keys_steadily(a@.number_of_hashers, data),
            a.looked_up(data, true),
            b.looked_up(data, true),
            intersection.looked_up(data, present),
        ensures
            present,
    {
        if !present {
            let (i, hash) = choose|i: int, hash: u64|
                {
                    &&& 0 <= i < intersection@.number_of_hashers
                    &&& #[trigger] keyed_to(i as u128, data, hash)
                    &&& !intersection@.bits[region_index(
                        i,
                        intersection@.bits_per_hasher as int,
                        hash,
                    )]
                };
            lemma_region_index_in_bounds(
                i,
                a@.number_of_hashers as int,
                a@.bits_per_hasher as int,
                hash,
            );
            Self::lemma_found_has_every_bit(a, data, i, hash);
            Self::lemma_found_has_every_bit(b, data, i, hash);
        }
    }
}

} // verus!
