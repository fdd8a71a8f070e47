//! The filter of Kirsch and Mitzenmacher: two hash values of an element
//! stand in for as many hashers as the filter has.

use std::hash::{Hash, Hasher};
use vstd::prelude::*;
use vstd::std_specs::cmp::PartialEqSpec;

use crate::bitset::Bitset;
use crate::error::FilterError;
use crate::hashing::{hash_with, hashed_to, hashes_alike, hashes_steadily};
use crate::model::{
    lemma_insert_all_keeps_contained, lemma_insert_all_keeps_layout, lemma_insert_is_idempotent,
    lemma_insert_none, lemma_insert_step, lemma_intersect_contains, lemma_union_contains,
    lemma_inserted_is_contained, lemma_region_index_in_bounds, lemma_region_index_in_region,
    region_index, FilterView,
};
use crate::sizing::{allocate, sized, sizing_accepted};
use crate::{BloomFilter, BloomFilterData, Union};

verus! {

/// The hash value that hasher `i` is simulated to give to an element whose
/// two real hash values are `hash_a` and `hash_b`: `hash_a + i * hash_b`,
/// wrapping at 64 bits.
pub open spec fn km_hash(i: int, hash_a: u64, hash_b: u64) -> u64 {
    hash_a.wrapping_add((i as u64).wrapping_mul(hash_b))
}

/// The simulated hash values of all `number_of_hashers` hashers.
pub open spec fn km_hashes(number_of_hashers: nat, hash_a: u64, hash_b: u64) -> Seq<u64> {
    Seq::new(number_of_hashers, |i: int| km_hash(i, hash_a, hash_b))
}

/// Whether two seeds are the same: both absent, or both present and equal
/// by the `==` of their type.
pub open spec fn seeds_agree<S: PartialEq>(a: Option<S>, b: Option<S>) -> bool {
    match (a, b) {
        (None, None) => true,
        (Some(x), Some(y)) => x.eq_spec(&y),
        _ => false,
    }
}

/// Whether it is known what the comparison of two seeds gives: where both
/// are present, the `==` of their type has to be the one that `eq_spec`
/// describes.
pub open spec fn seeds_comparable<S: PartialEq>(a: Option<S>, b: Option<S>) -> bool {
    a is Some && b is Some ==> S::obeys_eq_spec()
}

/// Whether the seed `to` is a copy of the seed `from`.
pub open spec fn seed_copied<S: Clone>(from: Option<S>, to: Option<S>) -> bool {
    match (from, to) {
        (None, None) => true,
        (Some(x), Some(y)) => cloned(x, y),
        _ => false,
    }
}

/// Compares two seeds.
fn seeds_equal<S: PartialEq>(a: &Option<S>, b: &Option<S>) -> (equal: bool)
    ensures
        seeds_comparable(*a, *b) ==> equal == seeds_agree(*a, *b),
{
    match (a, b) {
        (None, None) => true,
        (Some(x), Some(y)) => *x == *y,
        _ => false,
    }
}

/// Makes a hasher of type `H` from a seed of type `S`.
pub trait HasherBuilder<H, S> where H: Hasher + Clone, S: Clone + PartialEq {
    /// A new hasher for `seed`.
    fn new_with_seed(seed: S) -> H;
}

/// A Bloom filter that hashes each element twice, with two hashers of its
/// own, and derives a bit in each region from the two values.
#[derive(Debug)]
pub struct SeededKMBloomFilter<H1, H2, S1, S2> where
    H1: Hasher + Clone,
    H2: Hasher + Clone,
    S1: Clone + PartialEq,
    S2: Clone + PartialEq,
 {
    number_of_hashers: usize,
    bitset: Bitset,
    bits_per_hasher: usize,
    hasher1: H1,
    hasher2: H2,
    seed1: Option<S1>,
    seed2: Option<S2>,
}

/// A filter of Kirsch and Mitzenmacher whose hashers are made without seeds.
pub type KMBloomFilter<H1, H2> = SeededKMBloomFilter<H1, H2, (), ()>;

impl<H1, H2, S1, S2> View for SeededKMBloomFilter<H1, H2, S1, S2> where
    H1: Hasher + Clone,
    H2: Hasher + Clone,
    S1: Clone + PartialEq,
    S2: Clone + PartialEq,
 {
    type V = FilterView;

    closed spec fn view(&self) -> FilterView {
        FilterView {
            number_of_hashers: self.number_of_hashers as nat,
            bits_per_hasher: self.bits_per_hasher as nat,
            bits: self.bitset@,
        }
    }
}

impl<H1, H2, S1, S2> Clone for SeededKMBloomFilter<H1, H2, S1, S2> where
    H1: Hasher + Clone,
    H2: Hasher + Clone,
    S1: Clone + PartialEq,
    S2: Clone + PartialEq,
 {
    /// A filter of its own with the same layout and the same bits, and with
    /// copies of the hashers and of the seeds.
    fn clone(&self) -> (copy: Self)
        ensures
            copy@ == self@,
            self.hashing_copied_to(&copy),
    {
        proof {
            use_type_invariant(self);
        }
        SeededKMBloomFilter {
            number_of_hashers: self.number_of_hashers,
            bitset: self.bitset.clone(),
            bits_per_hasher: self.bits_per_hasher,
            hasher1: self.hasher1.clone(),
            hasher2: self.hasher2.clone(),
            seed1: self.seed1.clone(),
            seed2: self.seed2.clone(),
        }
    }
}

impl<H1, H2, S1, S2> SeededKMBloomFilter<H1, H2, S1, S2> where
    H1: Hasher + Clone,
    H2: Hasher + Clone,
    S1: Clone + PartialEq,
    S2: Clone + PartialEq,
 {
    /// What holds of every filter: its view is well formed.
    #[verifier::type_invariant]
    pub open spec fn inv(&self) -> bool {
        self@.wf()
    }

    /// The first hasher, of which a copy hashes each element.
    pub closed spec fn hasher1(&self) -> H1 {
        self.hasher1
    }

    /// The second hasher, of which a copy hashes each element.
    pub closed spec fn hasher2(&self) -> H2 {
        self.hasher2
    }

    /// Whether `other` has the hashers and the seeds of `self`. Neither
    /// changes in the life of a filter.
    pub open spec fn same_hashing(&self, other: &Self) -> bool {
        &&& self.hasher1() == other.hasher1()
        &&& self.hasher2() == other.hasher2()
        &&& self.seed1() == other.seed1()
        &&& self.seed2() == other.seed2()
    }

    /// Whether the hashers and the seeds of `other` are copies of those of `self`.
    pub open spec fn hashing_copied_to(&self, other: &Self) -> bool {
        &&& cloned(self.hasher1(), other.hasher1())
        &&& cloned(self.hasher2(), other.hasher2())
        &&& seed_copied(self.seed1(), other.seed1())
        &&& seed_copied(self.seed2(), other.seed2())
    }

    /// The seed that the first hasher was made with, if any.
    pub closed spec fn seed1(&self) -> Option<S1> {
        self.seed1
    }

    /// The seed that the second hasher was made with, if any.
    pub closed spec fn seed2(&self) -> Option<S2> {
        self.seed2
    }

    /// Whether `after` is what `self` becomes when `data` is inserted: the
    /// filter with the bits set that the hashers pick for two hash values
    /// that they can give to `data`.
    pub open spec fn inserted<T: Hash>(&self, data: T, after: &Self) -> bool {
        &&& self.same_hashing(after)
        &&& exists|hash_a: u64, hash_b: u64|
            {
                &&& #[trigger] hashed_to(self.hasher1(), data, hash_a)
                &&& #[trigger] hashed_to(self.hasher2(), data, hash_b)
                &&& after@ == self@.insert(km_hashes(self@.number_of_hashers, hash_a, hash_b))
            }
    }

    /// Whether `present` is an answer of the filter to the question whether
    /// it holds `data`: the answer for two hash values that the hashers can
    /// give to `data`.
    pub open spec fn looked_up<T: Hash>(&self, data: T, present: bool) -> bool {
        exists|hash_a: u64, hash_b: u64|
            {
                &&& #[trigger] hashed_to(self.hasher1(), data, hash_a)
                &&& #[trigger] hashed_to(self.hasher2(), data, hash_b)
                &&& present == self@.contains(km_hashes(self@.number_of_hashers, hash_a, hash_b))
            }
    }

    /// Whether each of the two hashers gives one value only to `data`.
    pub open spec fn hashes_steadily<T: Hash>(&self, data: T) -> bool {
        &&& hashes_steadily(self.hasher1(), data)
        &&& hashes_steadily(self.hasher2(), data)
    }

    /// Whether the hashers of `other` can give to `data` the values that
    /// those of `self` can give to it.
    pub open spec fn hashes_like<T: Hash>(&self, other: &Self, data: T) -> bool {
        &&& hashes_alike(self.hasher1(), other.hasher1(), data)
        &&& hashes_alike(self.hasher2(), other.hasher2(), data)
    }

    /// Whether it is known what the comparison of the seeds of two filters gives.
    pub open spec fn comparable_with(&self, other: &Self) -> bool {
        &&& seeds_comparable(self.seed1(), other.seed1())
        &&& seeds_comparable(self.seed2(), other.seed2())
    }

    /// Whether two filters have the same layout and the same seeds.
    pub open spec fn same_configuration(&self, other: &Self) -> bool {
        &&& self@.same_layout(other@)
        &&& seeds_agree(self.seed1(), other.seed1())
        &&& seeds_agree(self.seed2(), other.seed2())
    }

    /// A filter with no bit set, with hashers made from `seed1` and `seed2`.
    ///
    /// `bit_count` is the number of bits that the filter needs in all for
    /// `desired_capacity` elements, and `number_of_hashers` the number of
    /// hashers asked for.
    pub fn new_with_seeds<B1, B2>(
        desired_capacity: usize,
        bit_count: usize,
        number_of_hashers: usize,
        seed1: S1,
        seed2: S2,
    ) -> (result: Result<Self, FilterError>) where
        B1: HasherBuilder<H1, S1>,
        B2: HasherBuilder<H2, S2>,

        ensures
            match result {
                Ok(filter) => {
                    &&& sizing_accepted(desired_capacity, bit_count, number_of_hashers)
                    &&& filter@ == sized(bit_count, number_of_hashers)
                    &&& filter.seed1() == Some(seed1)
                    &&& filter.seed2() == Some(seed2)
                    &&& exists|copy: S1|
                        cloned(seed1, copy) && #[trigger] call_ensures(
                            B1::new_with_seed,
                            (copy,),
                            filter.hasher1(),
                        )
                    &&& exists|copy: S2|
                        cloned(seed2, copy) && #[trigger] call_ensures(
                            B2::new_with_seed,
                            (copy,),
                            filter.hasher2(),
                        )
                },
                Err(error) => {
                    &&& error == FilterError::InvalidArgument
                    &&& !sizing_accepted(desired_capacity, bit_count, number_of_hashers)
                },
            },
    {
        match allocate(desired_capacity, bit_count, number_of_hashers) {
            Ok((number_of_hashers, bits_per_hasher, bitset)) => {
                let copy1 = seed1.clone();
                let copy2 = seed2.clone();
                let ghost seed_of_first = copy1;
                let ghost seed_of_second = copy2;
                let filter = SeededKMBloomFilter {
                    number_of_hashers,
                    bitset,
                    bits_per_hasher,
                    hasher1: B1::new_with_seed(copy1),
                    hasher2: B2::new_with_seed(copy2),
                    seed1: Some(seed1),
                    seed2: Some(seed2),
                };
                assert(cloned(seed1, seed_of_first) && call_ensures(
                    B1::new_with_seed,
                    (seed_of_first,),
                    filter.hasher1(),
                ));
                assert(cloned(seed2, seed_of_second) && call_ensures(
                    B2::new_with_seed,
                    (seed_of_second,),
                    filter.hasher2(),
                ));
                Ok(filter)
            },
            Err(error) => Err(error),
        }
    }

    /// Whether two filters have the same number of hashers, the same region
    /// size and the same seeds.
    pub fn eq_configuration(&self, other: &Self) -> (equal: bool)
        ensures
            equal ==> self@.same_layout(other@),
            self.comparable_with(other) ==> equal == self.same_configuration(other),
    {
        self.number_of_hashers == other.number_of_hashers && self.bits_per_hasher
            == other.bits_per_hasher && seeds_equal(&self.seed1, &other.seed1) && seeds_equal(
            &self.seed2,
            &other.seed2,
        )
    }

    /// A new filter, with the configuration of `self`, that has a bit set
    /// where both `self` and `other` have it set. It reports as present what
    /// both report as present. It may report more elements as present than
    /// a filter into which only the common elements were inserted.
    pub fn intersect(&self, other: &Self) -> (result: Result<Self, FilterError>)
        ensures
            match result {
                Ok(filter) => {
                    &&& self@.same_layout(other@)
                    &&& filter@ == self@.intersect(other@)
                    &&& self.hashing_copied_to(&filter)
                },
                Err(error) => error == FilterError::ConfigMismatch,
            },
            !self@.same_layout(other@) ==> result is Err,
            self.comparable_with(other) ==> (result is Ok <==> self.same_configuration(other)),
    {
        proof {
            use_type_invariant(self);
            use_type_invariant(other);
        }
        if !self.eq_configuration(other) {
            return Err(FilterError::ConfigMismatch);
        }
        match self.bitset.intersect(&other.bitset) {
            Ok(bitset) => Ok(
                SeededKMBloomFilter {
                    number_of_hashers: self.number_of_hashers,
                    bitset,
                    bits_per_hasher: self.bits_per_hasher,
                    hasher1: self.hasher1.clone(),
                    hasher2: self.hasher2.clone(),
                    seed1: self.seed1.clone(),
                    seed2: self.seed2.clone(),
                },
            ),
            Err(error) => Err(error),
        }
    }

    /// The index of the bit that hasher `i` picks for an element with the
    /// hash values `hash_a` and `hash_b`.
    pub fn index(i: usize, bits_per_hash: usize, hash_a: u64, hash_b: u64) -> (index: usize)
        requires
            bits_per_hash > 0,
            (i + 1) * bits_per_hash <= usize::MAX,
        ensures
            index == region_index(
                i as int,
                bits_per_hash as int,
                km_hash(i as int, hash_a, hash_b),
            ),
    {
        let hash = hash_a.wrapping_add((i as u64).wrapping_mul(hash_b));
        proof {
            lemma_region_index_in_region(i as int, bits_per_hash as int, hash);
        }
        i * bits_per_hash + (hash % (bits_per_hash as u64)) as usize
    }

    /// The two hash values that copies of the filter's hashers give to `data`.
    pub fn generate_hashes<T: Hash>(&self, data: &T) -> (hashes: (u64, u64))
        ensures
            hashed_to(self.hasher1(), *data, hashes.0),
            hashed_to(self.hasher2(), *data, hashes.1),
    {
        let hash_a = hash_with(&self.hasher1, data);
        let hash_b = hash_with(&self.hasher2, data);
        (hash_a, hash_b)
    }

    /// Whether the element whose two hash values are `hash_a` and `hash_b` is
    /// possibly present. Stops at the first bit that is clear.
    pub fn contains_hashes(&self, hash_a: u64, hash_b: u64) -> (present: bool)
        ensures
            present == self@.contains(km_hashes(self@.number_of_hashers, hash_a, hash_b)),
    {
        let ghost hashes = km_hashes(self@.number_of_hashers, hash_a, hash_b);
        proof {
            use_type_invariant(self);
            self.bitset.lemma_len_fits();
        }
        let mut i: usize = 0;
        while i < self.number_of_hashers
            invariant
                i <= self.number_of_hashers,
                self@.wf(),
                self@.bits.len() <= usize::MAX,
                hashes == km_hashes(self@.number_of_hashers, hash_a, hash_b),
                forall|j: int|
                    0 <= j < i ==> self@.bits[#[trigger] region_index(
                        j,
                        self@.bits_per_hasher as int,
                        hashes[j],
                    )],
            decreases self.number_of_hashers - i,
        {
            proof {
                lemma_region_index_in_bounds(
                    i as int,
                    self.number_of_hashers as int,
                    self.bits_per_hasher as int,
                    hashes[i as int],
                );
            }
            let index = Self::index(i, self.bits_per_hasher, hash_a, hash_b);
            match self.bitset.get(index) {
                Ok(true) => {},
                _ => {
                    return false;
                },
            }
            i = i + 1;
        }
        true
    }

    /// Inserts the element whose two hash values are `hash_a` and `hash_b`.
    pub fn insert_hashes(&mut self, hash_a: u64, hash_b: u64)
        ensures
            final(self)@ == old(self)@.insert(
                km_hashes(old(self)@.number_of_hashers, hash_a, hash_b),
            ),
            old(self).same_hashing(final(self)),
    {
        let ghost hashes = km_hashes(self@.number_of_hashers, hash_a, hash_b);
        proof {
            lemma_insert_none(self@);
        }
        let mut i: usize = 0;
        while i < self.number_of_hashers
            invariant
                i <= self.number_of_hashers,
                self.number_of_hashers == old(self).number_of_hashers,
                self.bits_per_hasher == old(self).bits_per_hasher,
                hashes == km_hashes(old(self)@.number_of_hashers, hash_a, hash_b),
                self@ == old(self)@.insert(hashes.take(i as int)),
                old(self).same_hashing(self),
            decreases self.number_of_hashers - i,
        {
            proof {
                use_type_invariant(&*self);
                self.bitset.lemma_len_fits();
                lemma_region_index_in_bounds(
                    i as int,
                    self.number_of_hashers as int,
                    self.bits_per_hasher as int,
                    hashes[i as int],
                );
                lemma_insert_step(old(self)@, hashes, i as int);
            }
            let index = Self::index(i, self.bits_per_hasher, hash_a, hash_b);
            let _ = self.bitset.set(index, true);
            i = i + 1;
        }
        proof {
            assert(hashes.take(i as int) =~= hashes);
        }
    }
}

impl<H1, H2, S1, S2> SeededKMBloomFilter<H1, H2, S1, S2> where
    H1: Hasher + Default + Clone,
    H2: Hasher + Default + Clone,
    S1: Clone + PartialEq,
    S2: Clone + PartialEq,
 {
    /// A filter with no bit set, with the default hashers of `H1` and `H2` and
    /// no seeds.
    ///
    /// `bit_count` is the number of bits that the filter needs in all for
    /// `desired_capacity` elements, and `number_of_hashers` the number of
    /// hashers asked for.
    pub fn new(desired_capacity: usize, bit_count: usize, number_of_hashers: usize) -> (result:
        Result<Self, FilterError>)
        ensures
            match result {
                Ok(filter) => {
                    &&& sizing_accepted(desired_capacity, bit_count, number_of_hashers)
                    &&& filter@ == sized(bit_count, number_of_hashers)
                    &&& filter.seed1() is None
                    &&& filter.seed2() is None
                    &&& call_ensures(H1::default, (), filter.hasher1())
                    &&& call_ensures(H2::default, (), filter.hasher2())
                },
                Err(error) => {
                    &&& error == FilterError::InvalidArgument
                    &&& !sizing_accepted(desired_capacity, bit_count, number_of_hashers)
                },
            },
    {
        match allocate(desired_capacity, bit_count, number_of_hashers) {
            Ok((number_of_hashers, bits_per_hasher, bitset)) => Ok(
                SeededKMBloomFilter {
                    number_of_hashers,
                    bitset,
                    bits_per_hasher,
                    hasher1: H1::default(),
                    hasher2: H2::default(),
                    seed1: None,
                    seed2: None,
                },
            ),
            Err(error) => Err(error),
        }
    }
}

impl<H1, H2, S1, S2> Union for SeededKMBloomFilter<H1, H2, S1, S2> where
    H1: Hasher + Clone,
    H2: Hasher + Clone,
    S1: Clone + PartialEq,
    S2: Clone + PartialEq,
 {
    /// A new filter, with the configuration of `self`, that has a bit set
    /// where `self` or `other` has it set. It reports as present what either
    /// reports as present.
    fn union(&self, other: &Self) -> (result: Result<Self, FilterError>)
        ensures
            match result {
                Ok(filter) => {
                    &&& self@.same_layout(other@)
                    &&& filter@ == self@.union(other@)
                    &&& self.hashing_copied_to(&filter)
                },
                Err(error) => error == FilterError::ConfigMismatch,
            },
            !self@.same_layout(other@) ==> result is Err,
            self.comparable_with(other) ==> (result is Ok <==> self.same_configuration(other)),
    {
        proof {
            use_type_invariant(self);
            use_type_invariant(other);
        }
        if !self.eq_configuration(other) {
            return Err(FilterError::ConfigMismatch);
        }
        match self.bitset.union(&other.bitset) {
            Ok(bitset) => Ok(
                SeededKMBloomFilter {
                    number_of_hashers: self.number_of_hashers,
                    bitset,
                    bits_per_hasher: self.bits_per_hasher,
                    hasher1: self.hasher1.clone(),
                    hasher2: self.hasher2.clone(),
                    seed1: self.seed1.clone(),
                    seed2: self.seed2.clone(),
                },
            ),
            Err(error) => Err(error),
        }
    }
}

impl<H1, H2, S1, S2> BloomFilterData for SeededKMBloomFilter<H1, H2, S1, S2> where
    H1: Hasher + Clone,
    H2: Hasher + Clone,
    S1: Clone + PartialEq,
    S2: Clone + PartialEq,
 {
    type DataType = Bitset;

    /// The number of hashers.
    fn number_of_hashers(&self) -> (count: usize) {
        self.number_of_hashers
    }

    /// The number of bits in the region of each hasher.
    fn bits_per_hasher(&self) -> (count: usize) {
        self.bits_per_hasher
    }

    /// The bits.
    fn data(&self) -> (data: &Bitset) {
        &self.bitset
    }

    /// Replaces the bits by as many others, and leaves the hashers and the
    /// seeds as they are.
    fn set_data(&mut self, data: Bitset) -> (result: Result<(), FilterError>)
        ensures
            old(self).same_hashing(final(self)),
    {
        proof {
            use_type_invariant(&*self);
        }
        if data.len() != self.bitset.len() {
            return Err(FilterError::ConfigMismatch);
        }
        self.bitset = data;
        Ok(())
    }
}

impl<H1, H2, S1, S2> BloomFilter for SeededKMBloomFilter<H1, H2, S1, S2> where
    H1: Hasher + Clone,
    H2: Hasher + Clone,
    S1: Clone + PartialEq,
    S2: Clone + PartialEq,
 {
    /// Inserts `data` by the two hash values that the filter's hashers give it.
    fn insert<T: Hash>(&mut self, data: &T)
        ensures
            old(self).inserted(*data, final(self)),
    {
        let (hash_a, hash_b) = self.generate_hashes(data);
        self.insert_hashes(hash_a, hash_b);
    }

    /// Looks `data` up by the two hash values that the filter's hashers give it.
    fn contains<T: Hash>(&self, data: &T) -> (present: bool)
        ensures
            self.looked_up(*data, present),
    {
        let (hash_a, hash_b) = self.generate_hashes(data);
        self.contains_hashes(hash_a, hash_b)
    }
}

/// What the contracts above say of elements where the hashers give one
/// value only to each of them.
impl<H1, H2, S1, S2> SeededKMBloomFilter<H1, H2, S1, S2> where
    H1: Hasher + Clone,
    H2: Hasher + Clone,
    S1: Clone + PartialEq,
    S2: Clone + PartialEq,
 {
    /// Where the hashers give one value only to `data`, the filter's answer
    /// for `data` is its answer for these values.
    proof fn lemma_answer_of_steady_hashers<T: Hash>(
        filter: Self,
        data: T,
        present: bool,
        hash_a: u64,
        hash_b: u64,
    )
        requires
            filter.hashes_steadily(data),
            filter.looked_up(data, present),
            hashed_to(filter.hasher1(), data, hash_a),
            hashed_to(filter.hasher2(), data, hash_b),
        ensures
            present == filter@.contains(km_hashes(filter@.number_of_hashers, hash_a, hash_b)),
    {
        let (again_a, again_b) = choose|again_a: u64, again_b: u64|
            {
                &&& #[trigger] hashed_to(filter.hasher1(), data, again_a)
                &&& #[trigger] hashed_to(filter.hasher2(), data, again_b)
                &&& present == filter@.contains(
                    km_hashes(filter@.number_of_hashers, again_a, again_b),
                )
            };
        assert(again_a == hash_a && again_b == hash_b);
    }

    /// No false negatives: where the hashers give one value only to `data`,
    /// a filter into which `data` was inserted answers that it holds `data`,
    /// whatever it held before and whatever was inserted into it since.
    pub proof fn lemma_inserted_element_is_found<T: Hash>(
        before: Self,
        data: T,
        after: Self,
        since: Seq<Seq<u64>>,
        later: Self,
        present: bool,
    )
        requires
            before@.wf(),
            before.hashes_steadily(data),
            before.inserted(data, &after),
            later@ == after@.insert_all(since),
            after.same_hashing(&later),
            later.looked_up(data, present),
        ensures
            present,
    {
        let (hash_a, hash_b) = choose|hash_a: u64, hash_b: u64|
            {
                &&& #[trigger] hashed_to(before.hasher1(), data, hash_a)
                &&& #[trigger] hashed_to(before.hasher2(), data, hash_b)
                &&& after@ == before@.insert(
                    km_hashes(before@.number_of_hashers, hash_a, hash_b),
                )
            };
        let hashes = km_hashes(before@.number_of_hashers, hash_a, hash_b);
        lemma_inserted_is_contained(before@, hashes);
        lemma_insert_all_keeps_contained(after@, since, hashes);
        lemma_insert_all_keeps_layout(after@, since);
        Self::lemma_answer_of_steady_hashers(later, data, present, hash_a, hash_b);
    }

    /// Insertion is idempotent: where the hashers give one value only to
    /// `data`, to insert `data` a second time changes no bit, and so no
    /// answer of the filter.
    pub proof fn lemma_inserting_again_changes_nothing<T: Hash>(
        before: Self,
        data: T,
        after: Self,
        again: Self,
    )
        requires
            before.hashes_steadily(data),
            before.inserted(data, &after),
            after.inserted(data, &again),
        ensures
            again@ == after@,
    {
        let (hash_a, hash_b) = choose|hash_a: u64, hash_b: u64|
            {
                &&& #[trigger] hashed_to(before.hasher1(), data, hash_a)
                &&& #[trigger] hashed_to(before.hasher2(), data, hash_b)
                &&& after@ == before@.insert(
                    km_hashes(before@.number_of_hashers, hash_a, hash_b),
                )
            };
        let (again_a, again_b) = choose|again_a: u64, again_b: u64|
            {
                &&& #[trigger] hashed_to(after.hasher1(), data, again_a)
                &&& #[trigger] hashed_to(after.hasher2(), data, again_b)
                &&& again@ == after@.insert(
                    km_hashes(after@.number_of_hashers, again_a, again_b),
                )
            };
        assert(again_a == hash_a && again_b == hash_b);
        lemma_insert_is_idempotent(
            before@,
            km_hashes(before@.number_of_hashers, hash_a, hash_b),
        );
    }

    /// Where all hashers at work can give to `data` the same values, and one
    /// value only, the union of two filters answers that it holds `data` if
    /// one of the two does.
    pub proof fn lemma_union_finds_element<T: Hash>(
        a: Self,
        b: Self,
        union: Self,
        data: T,
        present: bool,
    )
        requires
            a@.wf(),
            b@.wf(),
            a@.same_layout(b@),
            union@ == a@.union(b@),
            a.hashes_steadily(data),
            a.hashes_like(&b, data),
            a.hashes_like(&union, data),
            a.looked_up(data, true) || b.looked_up(data, true),
            union.looked_up(data, present),
        ensures
            present,
    {
        let (hash_a, hash_b) = choose|hash_a: u64, hash_b: u64|
            {
                &&& #[trigger] hashed_to(union.hasher1(), data, hash_a)
                &&& #[trigger] hashed_to(union.hasher2(), data, hash_b)
                &&& present == union@.contains(
                    km_hashes(union@.number_of_hashers, hash_a, hash_b),
                )
            };
        let hashes = km_hashes(a@.number_of_hashers, hash_a, hash_b);
        if a.looked_up(data, true) {
            Self::lemma_answer_of_steady_hashers(a, data, true, hash_a, hash_b);
        } else {
            Self::lemma_answer_of_steady_hashers(b, data, true, hash_a, hash_b);
        }
        lemma_union_contains(a@, b@, hashes);
    }

    /// Where all hashers at work can give to `data` the same values, and one
    /// value only, the intersection of two filters answers that it holds
    /// `data` if both of them do: so for each element that was inserted into
    /// both.
    pub proof fn lemma_intersection_finds_element<T: Hash>(
        a: Self,
        b: Self,
        intersection: Self,
        data: T,
        present: bool,
    )
        requires
            a@.wf(),
            b@.wf(),
            a@.same_layout(b@),
            intersection@ == a@.intersect(b@),
            a.hashes_steadily(data),
            a.hashes_like(&b, data),
            a.hashes_like(&intersection, data),
            a.looked_up(data, true),
            b.looked_up(data, true),
            intersection.looked_up(data, present),
        ensures
            present,
    {
        let (hash_a, hash_b) = choose|hash_a: u64, hash_b: u64|
            {
                &&& #[trigger] hashed_to(intersection.hasher1(), data, hash_a)
                &&& #[trigger] hashed_to(intersection.hasher2(), data, hash_b)
                &&& present == intersection@.contains(
                    km_hashes(intersection@.number_of_hashers, hash_a, hash_b),
                )
            };
        let hashes = km_hashes(a@.number_of_hashers, hash_a, hash_b);
        Self::lemma_answer_of_steady_hashers(a, data, true, hash_a, hash_b);
        Self::lemma_answer_of_steady_hashers(b, data, true, hash_a, hash_b);
        lemma_intersect_contains(a@, b@, hashes);
    }
}

} // verus!
