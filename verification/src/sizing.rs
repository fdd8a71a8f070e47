//! From the size that a filter was asked to have to the layout of its bits.
//!
//! The caller works out, from the capacity and the false-positive
//! probability that it wants, how many bits the filter needs in all and
//! how many hashers serve it best. What follows is done here: at least one
//! hasher, regions of equal size that together hold the bits asked for,
//! and the bit array itself.

use vstd::prelude::*;

use crate::bitset::Bitset;
use crate::error::FilterError;
use crate::model::{hashers_for, lemma_region_size_is_least, region_size, FilterView};

verus! {

/// Whether a filter can be built for these numbers: the capacity and the
/// number of bits are not zero, and the regions together have a length that
/// a `usize` holds.
pub open spec fn sizing_accepted(
    desired_capacity: usize,
    bit_count: usize,
    number_of_hashers: usize,
) -> bool {
    &&& desired_capacity > 0
    &&& bit_count > 0
    &&& hashers_for(number_of_hashers as nat) * region_size(
        bit_count as nat,
        hashers_for(number_of_hashers as nat),
    ) <= usize::MAX
}

/// The empty filter that these numbers call for.
pub open spec fn sized(bit_count: usize, number_of_hashers: usize) -> FilterView {
    FilterView::empty(
        hashers_for(number_of_hashers as nat),
        region_size(bit_count as nat, hashers_for(number_of_hashers as nat)),
    )
}

/// The number of hashers, the number of bits for each of them, and the bit
/// array, all bits clear, of a filter of these numbers.
pub fn allocate(desired_capacity: usize, bit_count: usize, number_of_hashers: usize) -> (result:
    Result<(usize, usize, Bitset), FilterError>)
    ensures
        match result {
            Ok((hashers, bits_per_hasher, bitset)) => {
                &&& sizing_accepted(desired_capacity, bit_count, number_of_hashers)
                &&& sized(bit_count, number_of_hashers).wf()
                &&& sized(bit_count, number_of_hashers) == (FilterView {
                    number_of_hashers: hashers as nat,
                    bits_per_hasher: bits_per_hasher as nat,
                    bits: bitset@,
                })
            },
            Err(error) => {
                &&& error == FilterError::InvalidArgument
                &&& !sizing_accepted(desired_capacity, bit_count, number_of_hashers)
            },
        },
{
    if desired_capacity == 0 || bit_count == 0 {
        return Err(FilterError::InvalidArgument);
    }
    let hashers: usize = if number_of_hashers == 0 {
        1
    } else {
        number_of_hashers
    };
    let bits_per_hasher: usize = if bit_count % hashers == 0 {
        bit_count / hashers
    } else {
        assert(bit_count / hashers < bit_count) by (nonlinear_arith)
            requires
                bit_count % hashers != 0,
                hashers > 0,
                bit_count > 0,
        ;
        bit_count / hashers + 1
    };
    proof {
        lemma_region_size_is_least(bit_count as nat, hashers as nat);
    }
    match hashers.checked_mul(bits_per_hasher) {
        Some(length) => {
            assert(length > 0) by (nonlinear_arith)
                requires
                    length == hashers * bits_per_hasher,
                    hashers > 0,
                    bits_per_hasher > 0,
            ;
            match Bitset::new(length) {
                Ok(bitset) => Ok((hashers, bits_per_hasher, bitset)),
                Err(error) => Err(error),
            }
        },
        None => Err(FilterError::InvalidArgument),
    }
}

} // verus!
