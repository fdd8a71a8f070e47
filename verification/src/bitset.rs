//! A bit array of fixed length, packed eight bits to the byte.

use vstd::prelude::*;

use crate::error::FilterError;

verus! {

/// Whether bit `k` (0 is the least significant) of `byte` is set.
pub open spec fn bit_of(byte: u8, k: int) -> bool {
    0 <= k < 8 && byte & (1u8 << (k as u8)) != 0
}

/// The eight bits of `byte`, least significant first.
pub open spec fn byte_bits(byte: u8) -> Seq<bool> {
    Seq::new(8, |k: int| bit_of(byte, k))
}

/// The number of bytes that hold `length` bits.
pub open spec fn bytes_for(length: nat) -> nat {
    (length + 7) / 8
}

/// How many of `bits` are set.
pub open spec fn count_true(bits: Seq<bool>) -> nat {
    bits.filter(|b: bool| b).len()
}

/// Bit by bit, the OR of two runs of bits of one length.
pub open spec fn union_of(a: Seq<bool>, b: Seq<bool>) -> Seq<bool> {
    Seq::new(a.len(), |i: int| a[i] || b[i])
}

/// Bit by bit, the AND of two runs of bits of one length.
pub open spec fn intersection_of(a: Seq<bool>, b: Seq<bool>) -> Seq<bool> {
    Seq::new(a.len(), |i: int| a[i] && b[i])
}

/// `u8::count_ones` of std: the number of bits that are set in the byte.
pub assume_specification[ u8::count_ones ](byte: u8) -> (ones: u32)
    ensures
        ones == count_true(byte_bits(byte)),
;

/// `u8::count_zeros` of std: the number of bits that are clear in the byte,
/// which is eight less the number of those that are set.
pub assume_specification[ u8::count_zeros ](byte: u8) -> (zeros: u32)
    ensures
        zeros == 8 - count_true(byte_bits(byte)),
;

/// A fixed number of bits, each addressed by its index.
#[derive(Debug)]
pub struct Bitset {
    bytes: Vec<u8>,
    length: usize,
}

impl View for Bitset {
    type V = Seq<bool>;

    /// The bits in index order.
    closed spec fn view(&self) -> Seq<bool> {
        Seq::new(self.length as nat, |i: int| bit_of(self.bytes@[i / 8], i % 8))
    }
}

impl Clone for Bitset {
    /// An array of its own with the same bits.
    fn clone(&self) -> (copy: Self)
        ensures
            copy@ == self@,
    {
        proof {
            use_type_invariant(self);
        }
        let bytes = self.bytes.clone();
        Bitset { bytes, length: self.length }
    }
}

impl Bitset {
    #[verifier::type_invariant]
    spec fn inv(&self) -> bool {
        &&& self.length >= 1
        &&& self.bytes@.len() == bytes_for(self.length as nat)
        &&& forall|i: int|
            self.length <= i < 8 * self.bytes@.len() ==> !bit_of(
                #[trigger] self.bytes@[i / 8],
                i % 8,
            )
    }

    /// An array of `length` bits, all of them clear.
    pub fn new(length: usize) -> (result: Result<Bitset, FilterError>)
        ensures
            length == 0 ==> result == Err::<Bitset, FilterError>(FilterError::InvalidArgument),
            length > 0 ==> result is Ok && result->Ok_0@ == Seq::new(length as nat, |i: int| false),
    {
        if length == 0 {
            return Err(FilterError::InvalidArgument);
        }
        let byte_length: usize = if length % 8 == 0 {
            length / 8
        } else {
            1 + length / 8
        };
        let bytes = vec![0u8; byte_length];
        proof {
            assert forall|i: int| 0 <= i < 8 * byte_length implies !bit_of(
                #[trigger] bytes@[i / 8],
                i % 8,
            ) by {
                let k = (i % 8) as u8;
                assert(0u8 & (1u8 << k) == 0) by (bit_vector);
            }
        }
        Ok(Bitset { bytes, length })
    }

    /// Whether the bit at `index` is set.
    pub fn get(&self, index: usize) -> (result: Result<bool, FilterError>)
        ensures
            index < self@.len() ==> result == Ok::<bool, FilterError>(self@[index as int]),
            index >= self@.len() ==> result == Err::<bool, FilterError>(
                FilterError::IndexOutOfRange,
            ),
    {
        proof {
            use_type_invariant(self);
        }
        if index >= self.length {
            return Err(FilterError::IndexOutOfRange);
        }
        let byte_index = index / 8;
        let shift = (index % 8) as u8;
        let mask = 1u8 << shift;
        let byte = self.bytes[byte_index];
        proof {
            lemma_test_bit(byte, shift);
        }
        Ok(byte & mask == mask)
    }

    /// Sets the bit at `index` when `value` is true and clears it otherwise.
    pub fn set(&mut self, index: usize, value: bool) -> (result: Result<(), FilterError>)
        ensures
            index < old(self)@.len() ==> result is Ok && final(self)@ == old(self)@.update(
                index as int,
                value,
            ),
            index >= old(self)@.len() ==> result == Err::<(), FilterError>(
                FilterError::IndexOutOfRange,
            ) && final(self)@ == old(self)@,
        no_unwind
    {
        proof {
            use_type_invariant(&*self);
        }
        if index >= self.length {
            return Err(FilterError::IndexOutOfRange);
        }
        let byte_index = index / 8;
        let shift = (index % 8) as u8;
        let mask = 1u8 << shift;
        let byte = self.bytes[byte_index];
        let updated = if value {
            byte | mask
        } else {
            byte & !mask
        };
        proof {
            let after = self.bytes@.update(byte_index as int, updated);
            assert forall|i: int| 0 <= i < 8 * after.len() implies bit_of(
                #[trigger] after[i / 8],
                i % 8,
            ) == if i == index {
                value
            } else {
                bit_of(self.bytes@[i / 8], i % 8)
            } by {
                if i / 8 == byte_index {
                    lemma_set_bit(byte, shift, (i % 8) as u8);
                    lemma_clear_bit(byte, shift, (i % 8) as u8);
                }
            }
        }
        store_byte(&mut self.bytes, byte_index, updated);
        Ok(())
    }

    /// The unused bits of the last byte are clear, so the backing bytes hold
    /// as many set bits as the array does.
    proof fn lemma_count_all(&self)
        requires
            self.inv(),
        ensures
            count_true(all_bits(self.bytes@)) == count_true(self@),
            count_true(self@) <= self.length,
    {
        let all = all_bits(self.bytes@);
        let tail = all.skip(self.length as int);
        assert(all =~= self@ + tail);
        lemma_count_true_add(self@, tail);
        lemma_count_true_none(tail);
        lemma_count_true_bound(self@);
    }

    /// The number of bits that are set.
    pub fn count_ones(&self) -> (ones: usize)
        ensures
            ones == count_true(self@),
    {
        proof {
            use_type_invariant(self);
            self.lemma_count_all();
            lemma_count_true_none(Seq::<bool>::empty());
        }
        let byte_length = self.bytes.len();
        let mut ones: usize = 0;
        let mut i: usize = 0;
        while i < byte_length
            invariant
                byte_length == self.bytes@.len(),
                i <= byte_length,
                ones == count_true(all_bits(self.bytes@.take(i as int))),
                count_true(all_bits(self.bytes@)) <= usize::MAX,
            decreases byte_length - i,
        {
            proof {
                lemma_count_step(self.bytes@, i as int);
            }
            ones = ones + self.bytes[i].count_ones() as usize;
            i = i + 1;
        }
        assert(self.bytes@.take(byte_length as int) =~= self.bytes@);
        ones
    }

    /// The number of clear bits in the backing bytes, the unused bits of the
    /// last byte among them: eight for each byte, less the bits that are set.
    /// The count has to be one that a `usize` holds.
    pub fn count_zeros(&self) -> (zeros: usize)
        requires
            8 * bytes_for(self@.len()) <= usize::MAX,
        ensures
            zeros == 8 * bytes_for(self@.len()) - count_true(self@),
    {
        proof {
            use_type_invariant(self);
            self.lemma_count_all();
            lemma_count_true_none(Seq::<bool>::empty());
        }
        let byte_length = self.bytes.len();
        let mut zeros: usize = 0;
        let mut i: usize = 0;
        while i < byte_length
            invariant
                byte_length == self.bytes@.len(),
                8 * byte_length <= usize::MAX,
                i <= byte_length,
                zeros == 8 * i - count_true(all_bits(self.bytes@.take(i as int))),
            decreases byte_length - i,
        {
            proof {
                lemma_count_step(self.bytes@, i as int);
                lemma_count_true_bound(all_bits(self.bytes@.take(i as int)));
                lemma_count_true_bound(byte_bits(self.bytes@[i as int]));
            }
            zeros = zeros + self.bytes[i].count_zeros() as usize;
            i = i + 1;
        }
        assert(self.bytes@.take(byte_length as int) =~= self.bytes@);
        zeros
    }

    /// A new array that has a bit set where `self` or `other` has it set.
    pub fn union(&self, other: &Bitset) -> (result: Result<Bitset, FilterError>)
        ensures
            self@.len() != other@.len() ==> result == Err::<Bitset, FilterError>(
                FilterError::ConfigMismatch,
            ),
            self@.len() == other@.len() ==> result is Ok && result->Ok_0@ == union_of(
                self@,
                other@,
            ),
    {
        proof {
            use_type_invariant(self);
            use_type_invariant(other);
        }
        if self.length != other.length {
            return Err(FilterError::ConfigMismatch);
        }
        let byte_length = self.bytes.len();
        let mut bytes: Vec<u8> = Vec::with_capacity(byte_length);
        let mut i: usize = 0;
        while i < byte_length
            invariant
                byte_length == self.bytes@.len(),
                byte_length == other.bytes@.len(),
                i <= byte_length,
                bytes@.len() == i,
                forall|j: int| 0 <= j < i ==> bytes@[j] == self.bytes@[j] | other.bytes@[j],
            decreases byte_length - i,
        {
            bytes.push(self.bytes[i] | other.bytes[i]);
            i = i + 1;
        }
        proof {
            assert forall|j: int| 0 <= j < 8 * byte_length implies bit_of(
                #[trigger] bytes@[j / 8],
                j % 8,
            ) == (bit_of(self.bytes@[j / 8], j % 8) || bit_of(other.bytes@[j / 8], j % 8)) by {
                lemma_or_bit(self.bytes@[j / 8], other.bytes@[j / 8], (j % 8) as u8);
            }
        }
        Ok(Bitset { bytes, length: self.length })
    }

    /// A new array that has a bit set where both `self` and `other` have it set.
    pub fn intersect(&self, other: &Bitset) -> (result: Result<Bitset, FilterError>)
        ensures
            self@.len() != other@.len() ==> result == Err::<Bitset, FilterError>(
                FilterError::ConfigMismatch,
            ),
            self@.len() == other@.len() ==> result is Ok && result->Ok_0@ == intersection_of(
                self@,
                other@,
            ),
    {
        proof {
            use_type_invariant(self);
            use_type_invariant(other);
        }
        if self.length != other.length {
            return Err(FilterError::ConfigMismatch);
        }
        let byte_length = self.bytes.len();
        let mut bytes: Vec<u8> = Vec::with_capacity(byte_length);
        let mut i: usize = 0;
        while i < byte_length
            invariant
                byte_length == self.bytes@.len(),
                byte_length == other.bytes@.len(),
                i <= byte_length,
                bytes@.len() == i,
                forall|j: int| 0 <= j < i ==> bytes@[j] == self.bytes@[j] & other.bytes@[j],
            decreases byte_length - i,
        {
            bytes.push(self.bytes[i] & other.bytes[i]);
            i = i + 1;
        }
        proof {
            assert forall|j: int| 0 <= j < 8 * byte_length implies bit_of(
                #[trigger] bytes@[j / 8],
                j % 8,
            ) == (bit_of(self.bytes@[j / 8], j % 8) && bit_of(other.bytes@[j / 8], j % 8)) by {
                lemma_and_bit(self.bytes@[j / 8], other.bytes@[j / 8], (j % 8) as u8);
            }
        }
        Ok(Bitset { bytes, length: self.length })
    }

    /// The number of bytes that back the bits.
    pub fn byte_len(&self) -> (byte_length: usize)
        ensures
            byte_length == bytes_for(self@.len()),
    {
        proof {
            use_type_invariant(self);
        }
        self.bytes.len()
    }

    /// The number of bits is one that a `usize` holds.
    pub proof fn lemma_len_fits(&self)
        ensures
            self@.len() <= usize::MAX,
    {
    }

    /// The number of bits.
    pub fn len(&self) -> (length: usize)
        ensures
            length == self@.len(),
            length >= 1,
    {
        proof {
            use_type_invariant(self);
        }
        self.length
    }
}

/// Replaces the byte at `index`.
fn store_byte(bytes: &mut Vec<u8>, index: usize, byte: u8)
    requires
        index < old(bytes)@.len(),
    ensures
        final(bytes)@ == old(bytes)@.update(index as int, byte),
    no_unwind
{
    bytes[index] = byte;
}

/// The bits of a run of bytes, eight to the byte.
spec fn all_bits(bytes: Seq<u8>) -> Seq<bool> {
    Seq::new(8 * bytes.len(), |i: int| bit_of(bytes[i / 8], i % 8))
}

/// Setting bit `k` of a byte sets that bit and leaves the other seven as they were.
proof fn lemma_set_bit(byte: u8, k: u8, j: u8)
    by (bit_vector)
    requires
        k < 8,
        j < 8,
    ensures
        ((byte | (1u8 << k)) & (1u8 << j) != 0) == (j == k || byte & (1u8 << j) != 0),
{
}

/// Clearing bit `k` of a byte clears that bit and leaves the other seven as they were.
proof fn lemma_clear_bit(byte: u8, k: u8, j: u8)
    by (bit_vector)
    requires
        k < 8,
        j < 8,
    ensures
        ((byte & !(1u8 << k)) & (1u8 << j) != 0) == (j != k && byte & (1u8 << j) != 0),
{
}

/// A byte holds a one-bit mask whole exactly when it has that bit.
proof fn lemma_test_bit(byte: u8, k: u8)
    by (bit_vector)
    requires
        k < 8,
    ensures
        (byte & (1u8 << k) == (1u8 << k)) == (byte & (1u8 << k) != 0),
{
}

/// A bit of the bitwise OR of two bytes is set when it is set in either.
proof fn lemma_or_bit(a: u8, b: u8, k: u8)
    by (bit_vector)
    requires
        k < 8,
    ensures
        ((a | b) & (1u8 << k) != 0) == (a & (1u8 << k) != 0 || b & (1u8 << k) != 0),
{
}

/// A bit of the bitwise AND of two bytes is set when it is set in both.
proof fn lemma_and_bit(a: u8, b: u8, k: u8)
    by (bit_vector)
    requires
        k < 8,
    ensures
        ((a & b) & (1u8 << k) != 0) == (a & (1u8 << k) != 0 && b & (1u8 << k) != 0),
{
}

/// The set bits of two runs of bits laid end to end are those of the one and
/// those of the other.
proof fn lemma_count_true_add(a: Seq<bool>, b: Seq<bool>)
    ensures
        count_true(a + b) == count_true(a) + count_true(b),
{
    Seq::filter_distributes_over_add(a, b, |b: bool| b);
}

/// A run of bits of which none is set counts zero.
proof fn lemma_count_true_none(bits: Seq<bool>)
    requires
        forall|i: int| 0 <= i < bits.len() ==> !bits[i],
    ensures
        count_true(bits) == 0,
    decreases bits.len(),
{
    reveal(Seq::filter);
    if bits.len() > 0 {
        lemma_count_true_none(bits.drop_last());
    }
}

/// No more bits are set than there are bits.
proof fn lemma_count_true_bound(bits: Seq<bool>)
    ensures
        count_true(bits) <= bits.len(),
{
    bits.lemma_filter_len(|b: bool| b);
}

/// The bits of two runs of bytes laid end to end are the bits of the one,
/// then those of the other.
proof fn lemma_all_bits_add(a: Seq<u8>, b: Seq<u8>)
    ensures
        all_bits(a + b) == all_bits(a) + all_bits(b),
{
}

/// What one more byte adds to the count of set bits, and that the bytes
/// read so far hold no more set bits than all of them.
proof fn lemma_count_step(bytes: Seq<u8>, n: int)
    requires
        0 <= n < bytes.len(),
    ensures
        count_true(all_bits(bytes.take(n + 1))) == count_true(all_bits(bytes.take(n))) + count_true(
            byte_bits(bytes[n]),
        ),
        count_true(all_bits(bytes.take(n + 1))) <= count_true(all_bits(bytes)),
{
    let head = bytes.take(n);
    let one = seq![bytes[n]];
    let next = bytes.take(n + 1);
    let rest = bytes.skip(n + 1);
    assert(next =~= head + one);
    assert(all_bits(one) =~= byte_bits(bytes[n]));
    lemma_all_bits_add(head, one);
    lemma_count_true_add(all_bits(head), all_bits(one));
    assert(bytes =~= next + rest);
    lemma_all_bits_add(next, rest);
    lemma_count_true_add(all_bits(next), all_bits(rest));
}

/// Where each bit that is set in `a` is set in `b` too, `b` has at least as
/// many set bits as `a`.
pub proof fn lemma_count_true_monotone(a: Seq<bool>, b: Seq<bool>)
    requires
        a.len() == b.len(),
        forall|i: int| 0 <= i < a.len() ==> (a[i] ==> b[i]),
    ensures
        count_true(a) <= count_true(b),
    decreases a.len(),
{
    reveal(Seq::filter);
    if a.len() > 0 {
        lemma_count_true_monotone(a.drop_last(), b.drop_last());
    }
}

/// A bit reads back as it was last written, and writing it changes no other
/// bit nor the number of bits.
pub proof fn lemma_set_then_get(bits: Seq<bool>, index: int, value: bool, other: int)
    requires
        0 <= index < bits.len(),
        0 <= other < bits.len(),
    ensures
        bits.update(index, value).len() == bits.len(),
        bits.update(index, value)[index] == value,
        other != index ==> bits.update(index, value)[other] == bits[other],
{
}

} // verus!
