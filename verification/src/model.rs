//! What a filter is, mathematically: a number of hashers, the size of the
//! region of bits that each hasher owns, and the bits themselves. An
//! element enters a filter, and is looked up in it, by the hash values that
//! the hashers give it: one value for each hasher.

use vstd::prelude::*;

use crate::bitset::{count_true, intersection_of, lemma_count_true_monotone, union_of};

verus! {

/// The index of the bit that hasher `i` picks for an element it hashed to
/// `hash`, where each hasher owns `bits_per_hasher` bits.
pub open spec fn region_index(i: int, bits_per_hasher: int, hash: u64) -> int {
    i * bits_per_hasher + (hash as int) % bits_per_hasher
}

/// Whether some hasher picks bit `j` for the element with these hash values.
pub open spec fn picked(j: int, bits_per_hasher: int, hashes: Seq<u64>) -> bool {
    exists|i: int|
        0 <= i < hashes.len() && #[trigger] region_index(i, bits_per_hasher, hashes[i]) == j
}

/// The number of hashers of a filter that was asked to have `requested` of
/// them: as many, but at least one.
pub open spec fn hashers_for(requested: nat) -> nat {
    if requested == 0 {
        1
    } else {
        requested
    }
}

/// The number of bits that each of `number_of_hashers` hashers owns when
/// together they are to own at least `bit_count` bits: `bit_count` divided
/// by `number_of_hashers`, rounded up.
pub open spec fn region_size(bit_count: nat, number_of_hashers: nat) -> nat {
    if bit_count % number_of_hashers == 0 {
        bit_count / number_of_hashers
    } else {
        bit_count / number_of_hashers + 1
    }
}

/// `bits` with the bit at `index` set, where there is such a bit.
pub open spec fn update_in_bounds(bits: Seq<bool>, index: int) -> Seq<bool> {
    if 0 <= index < bits.len() {
        bits.update(index, true)
    } else {
        bits
    }
}

/// The abstract state of a filter.
#[verifier::ext_equal]
pub struct FilterView {
    /// The number of hashers, each with a region of its own.
    pub number_of_hashers: nat,
    /// The number of bits in each region.
    pub bits_per_hasher: nat,
    /// The bits of all regions, region after region.
    pub bits: Seq<bool>,
}

impl FilterView {
    /// There is at least one hasher, each region has at least one bit, and the
    /// bits are exactly those of the regions.
    pub open spec fn wf(self) -> bool {
        &&& self.number_of_hashers >= 1
        &&& self.bits_per_hasher >= 1
        &&& self.bits.len() == self.number_of_hashers * self.bits_per_hasher
    }

    /// The filter of this layout in which no bit is set.
    pub open spec fn empty(number_of_hashers: nat, bits_per_hasher: nat) -> FilterView {
        FilterView {
            number_of_hashers,
            bits_per_hasher,
            bits: Seq::new(number_of_hashers * bits_per_hasher, |j: int| false),
        }
    }

    /// The filter after the element with these hash values was inserted: a bit
    /// is set if it was set before or if a hasher picks it.
    pub open spec fn insert(self, hashes: Seq<u64>) -> FilterView {
        FilterView {
            bits: Seq::new(
                self.bits.len(),
                |j: int| self.bits[j] || picked(j, self.bits_per_hasher as int, hashes),
            ),
            ..self
        }
    }

    /// The filter after the elements with these hash values were inserted,
    /// one after the other.
    pub open spec fn insert_all(self, elements: Seq<Seq<u64>>) -> FilterView
        decreases elements.len(),
    {
        if elements.len() == 0 {
            self
        } else {
            self.insert_all(elements.drop_last()).insert(elements.last())
        }
    }

    /// Whether the filter reports the element with these hash values as
    /// possibly present: every hasher finds its bit set.
    pub open spec fn contains(self, hashes: Seq<u64>) -> bool {
        forall|i: int|
            0 <= i < hashes.len() ==> self.bits[#[trigger] region_index(
                i,
                self.bits_per_hasher as int,
                hashes[i],
            )]
    }

    /// Whether two filters have the same number of hashers and the same region size.
    pub open spec fn same_layout(self, other: FilterView) -> bool {
        &&& self.number_of_hashers == other.number_of_hashers
        &&& self.bits_per_hasher == other.bits_per_hasher
    }

    /// The filter with the layout of `self` that has a bit set where either has.
    pub open spec fn union(self, other: FilterView) -> FilterView {
        FilterView { bits: union_of(self.bits, other.bits), ..self }
    }

    /// The filter with the layout of `self` that has a bit set where both have.
    pub open spec fn intersect(self, other: FilterView) -> FilterView {
        FilterView { bits: intersection_of(self.bits, other.bits), ..self }
    }
}

/// The bit that a hasher picks lies in the hasher's own region.
pub proof fn lemma_region_index_in_region(i: int, bits_per_hasher: int, hash: u64)
    requires
        0 <= i,
        0 < bits_per_hasher,
    ensures
        i * bits_per_hasher <= region_index(i, bits_per_hasher, hash) < (i + 1) * bits_per_hasher,
{
    assert((i + 1) * bits_per_hasher == i * bits_per_hasher + bits_per_hasher)
        by (nonlinear_arith);
}

/// The bit that one of `number_of_hashers` hashers picks is one of the bits
/// of the regions: it lies before the end of the hasher's own region, which
/// is no later than the end of the last one.
pub proof fn lemma_region_index_in_bounds(
    i: int,
    number_of_hashers: int,
    bits_per_hasher: int,
    hash: u64,
)
    requires
        0 <= i < number_of_hashers,
        0 < bits_per_hasher,
    ensures
        0 <= region_index(i, bits_per_hasher, hash) < (i + 1) * bits_per_hasher,
        (i + 1) * bits_per_hasher <= number_of_hashers * bits_per_hasher,
{
    lemma_region_index_in_region(i, bits_per_hasher, hash);
    assert(0 <= i * bits_per_hasher && (i + 1) * bits_per_hasher <= number_of_hashers
        * bits_per_hasher) by (nonlinear_arith)
        requires
            0 <= i < number_of_hashers,
            0 < bits_per_hasher,
    ;
}

/// The region size is the least for which the regions together hold
/// `bit_count` bits.
pub proof fn lemma_region_size_is_least(bit_count: nat, number_of_hashers: nat)
    requires
        number_of_hashers > 0,
    ensures
        region_size(bit_count, number_of_hashers) * number_of_hashers >= bit_count,
        (region_size(bit_count, number_of_hashers) - 1) * number_of_hashers < bit_count,
        bit_count > 0 ==> region_size(bit_count, number_of_hashers) > 0,
{
    let q = bit_count / number_of_hashers;
    let r = bit_count % number_of_hashers;
    assert(bit_count == q * number_of_hashers + r && 0 <= r < number_of_hashers) by {
        vstd::arithmetic::div_mod::lemma_fundamental_div_mod(
            bit_count as int,
            number_of_hashers as int,
        );
        assert(number_of_hashers * q == q * number_of_hashers) by (nonlinear_arith);
    }
    assert((q + 1) * number_of_hashers == q * number_of_hashers + number_of_hashers)
        by (nonlinear_arith);
    assert((q - 1) * number_of_hashers == q * number_of_hashers - number_of_hashers)
        by (nonlinear_arith);
    if q == 0 {
        assert(q * number_of_hashers == 0) by (nonlinear_arith)
            requires
                q == 0,
        ;
    }
}

/// Inserting an element of no hash values changes nothing.
pub proof fn lemma_insert_none(filter: FilterView)
    ensures
        filter.insert(Seq::<u64>::empty()) == filter,
{
}

/// Inserting with one more hash value sets one more bit: the one that the
/// next hasher picks.
pub proof fn lemma_insert_step(filter: FilterView, hashes: Seq<u64>, n: int)
    requires
        0 <= n < hashes.len(),
    ensures
        filter.insert(hashes.take(n + 1)).bits == update_in_bounds(
            filter.insert(hashes.take(n)).bits,
            region_index(n, filter.bits_per_hasher as int, hashes[n]),
        ),
{
    let m = filter.bits_per_hasher as int;
    let shorter = hashes.take(n);
    let longer = hashes.take(n + 1);
    let target = region_index(n, m, hashes[n]);
    assert forall|j: int| picked(j, m, longer) == (picked(j, m, shorter) || j == target) by {
        if picked(j, m, shorter) {
            let i = choose|i: int|
                0 <= i < shorter.len() && #[trigger] region_index(i, m, shorter[i]) == j;
            assert(region_index(i, m, longer[i]) == j);
        }
        if j == target {
            assert(region_index(n, m, longer[n]) == j);
        }
    }
}

/// An insertion leaves the layout as it is.
pub proof fn lemma_insert_keeps_layout(filter: FilterView, hashes: Seq<u64>)
    requires
        filter.wf(),
    ensures
        filter.insert(hashes).wf(),
        filter.insert(hashes).same_layout(filter),
{
}

/// No false negatives: right after its insertion, an element is reported as
/// present, whatever the filter held before.
pub proof fn lemma_inserted_is_contained(filter: FilterView, hashes: Seq<u64>)
    requires
        filter.wf(),
        hashes.len() == filter.number_of_hashers,
    ensures
        filter.insert(hashes).contains(hashes),
{
    let m = filter.bits_per_hasher as int;
    assert forall|i: int| 0 <= i < hashes.len() implies filter.insert(
        hashes,
    ).bits[#[trigger] region_index(i, m, hashes[i])] by {
        lemma_region_index_in_bounds(i, filter.number_of_hashers as int, m, hashes[i]);
    }
}

/// An insertion clears no bit: what was reported as present before it is
/// reported as present after it.
pub proof fn lemma_insert_keeps_contained(
    filter: FilterView,
    inserted: Seq<u64>,
    hashes: Seq<u64>,
)
    requires
        filter.wf(),
        hashes.len() == filter.number_of_hashers,
        filter.contains(hashes),
    ensures
        filter.insert(inserted).contains(hashes),
{
    let m = filter.bits_per_hasher as int;
    assert forall|i: int| 0 <= i < hashes.len() implies filter.insert(
        inserted,
    ).bits[#[trigger] region_index(i, m, hashes[i])] by {
        lemma_region_index_in_bounds(i, filter.number_of_hashers as int, m, hashes[i]);
    }
}

/// A sequence of insertions clears no bit: what was reported as present
/// before it is reported as present after it.
pub proof fn lemma_insert_all_keeps_contained(
    filter: FilterView,
    elements: Seq<Seq<u64>>,
    hashes: Seq<u64>,
)
    requires
        filter.wf(),
        hashes.len() == filter.number_of_hashers,
        filter.contains(hashes),
    ensures
        filter.insert_all(elements).contains(hashes),
    decreases elements.len(),
{
    if elements.len() > 0 {
        lemma_insert_all_keeps_contained(filter, elements.drop_last(), hashes);
        lemma_insert_all_keeps_layout(filter, elements.drop_last());
        lemma_insert_keeps_contained(
            filter.insert_all(elements.drop_last()),
            elements.last(),
            hashes,
        );
    }
}

/// No false negatives, in general: after any sequence of insertions, each
/// element of the sequence is reported as present, whatever the filter held
/// before and whatever was inserted before or after the element.
pub proof fn lemma_no_false_negatives(filter: FilterView, elements: Seq<Seq<u64>>, i: int)
    requires
        filter.wf(),
        0 <= i < elements.len(),
        elements[i].len() == filter.number_of_hashers,
    ensures
        filter.insert_all(elements).wf(),
        filter.insert_all(elements).same_layout(filter),
        filter.insert_all(elements).contains(elements[i]),
    decreases elements.len(),
{
    let before = filter.insert_all(elements.drop_last());
    lemma_insert_all_keeps_layout(filter, elements.drop_last());
    lemma_insert_keeps_layout(before, elements.last());
    if i == elements.len() - 1 {
        lemma_inserted_is_contained(before, elements.last());
    } else {
        lemma_no_false_negatives(filter, elements.drop_last(), i);
        lemma_insert_keeps_contained(before, elements.last(), elements[i]);
    }
}

/// A sequence of insertions leaves the layout as it is.
pub proof fn lemma_insert_all_keeps_layout(filter: FilterView, elements: Seq<Seq<u64>>)
    requires
        filter.wf(),
    ensures
        filter.insert_all(elements).wf(),
        filter.insert_all(elements).same_layout(filter),
    decreases elements.len(),
{
    if elements.len() > 0 {
        lemma_insert_all_keeps_layout(filter, elements.drop_last());
        lemma_insert_keeps_layout(filter.insert_all(elements.drop_last()), elements.last());
    }
}

/// An insertion never lowers the number of bits that are set.
pub proof fn lemma_insert_never_lowers_count(filter: FilterView, hashes: Seq<u64>)
    ensures
        count_true(filter.insert(hashes).bits) >= count_true(filter.bits),
{
    lemma_count_true_monotone(filter.bits, filter.insert(hashes).bits);
}

/// Insertion is idempotent: to insert an element a second time changes no
/// bit, and so no answer of the filter.
pub proof fn lemma_insert_is_idempotent(filter: FilterView, hashes: Seq<u64>)
    ensures
        filter.insert(hashes).insert(hashes) == filter.insert(hashes),
{
}

/// The union of two filters of one layout reports as present what either
/// of the two reports as present.
pub proof fn lemma_union_contains(a: FilterView, b: FilterView, hashes: Seq<u64>)
    requires
        a.wf(),
        b.wf(),
        a.same_layout(b),
        hashes.len() == a.number_of_hashers,
        a.contains(hashes) || b.contains(hashes),
    ensures
        a.union(b).contains(hashes),
{
    let m = a.bits_per_hasher as int;
    assert forall|i: int| 0 <= i < hashes.len() implies a.union(
        b,
    ).bits[#[trigger] region_index(i, m, hashes[i])] by {
        lemma_region_index_in_bounds(i, a.number_of_hashers as int, m, hashes[i]);
    }
}

/// The intersection of two filters of one layout reports as present what
/// both of them report as present: each element that was inserted into both,
/// among others.
pub proof fn lemma_intersect_contains(a: FilterView, b: FilterView, hashes: Seq<u64>)
    requires
        a.wf(),
        b.wf(),
        a.same_layout(b),
        hashes.len() == a.number_of_hashers,
        a.contains(hashes),
        b.contains(hashes),
    ensures
        a.intersect(b).contains(hashes),
{
    let m = a.bits_per_hasher as int;
    assert forall|i: int| 0 <= i < hashes.len() implies a.intersect(
        b,
    ).bits[#[trigger] region_index(i, m, hashes[i])] by {
        lemma_region_index_in_bounds(i, a.number_of_hashers as int, m, hashes[i]);
    }
}

/// A union has at least as many bits set as either of its operands, and an
/// intersection at most as many.
pub proof fn lemma_union_and_intersect_counts(a: FilterView, b: FilterView)
    requires
        a.bits.len() == b.bits.len(),
    ensures
        count_true(a.union(b).bits) >= count_true(a.bits),
        count_true(a.union(b).bits) >= count_true(b.bits),
        count_true(a.intersect(b).bits) <= count_true(a.bits),
        count_true(a.intersect(b).bits) <= count_true(b.bits),
{
    lemma_count_true_monotone(a.bits, a.union(b).bits);
    lemma_count_true_monotone(b.bits, a.union(b).bits);
    lemma_count_true_monotone(a.intersect(b).bits, a.bits);
    lemma_count_true_monotone(a.intersect(b).bits, b.bits);
}

/// To insert an element into one of two filters and then unite them gives
/// what uniting them first and inserting then gives.
pub proof fn lemma_union_of_insertion(a: FilterView, b: FilterView, hashes: Seq<u64>)
    requires
        a.same_layout(b),
        a.bits.len() == b.bits.len(),
    ensures
        a.insert(hashes).union(b) == a.union(b).insert(hashes),
        a.union(b.insert(hashes)) == a.union(b).insert(hashes),
{
}

/// To insert an element into both of two filters and then intersect them
/// gives what intersecting them first and inserting then gives.
pub proof fn lemma_intersection_of_insertions(a: FilterView, b: FilterView, hashes: Seq<u64>)
    requires
        a.same_layout(b),
        a.bits.len() == b.bits.len(),
    ensures
        a.insert(hashes).intersect(b.insert(hashes)) == a.intersect(b).insert(hashes),
{
}

/// The union of a filter with one into which elements were inserted is the
/// union of the two with these elements inserted.
pub proof fn lemma_union_of_insertions(a: FilterView, b: FilterView, elements: Seq<Seq<u64>>)
    requires
        a.wf(),
        b.wf(),
        a.same_layout(b),
    ensures
        a.union(b.insert_all(elements)) == a.union(b).insert_all(elements),
    decreases elements.len(),
{
    if elements.len() > 0 {
        let before = b.insert_all(elements.drop_last());
        lemma_insert_all_keeps_layout(b, elements.drop_last());
        lemma_union_of_insertions(a, b, elements.drop_last());
        lemma_union_of_insertion(a, before, elements.last());
    }
}

/// The union of two filters that were filled from empty is the filter that
/// was filled from empty with the elements of both: it reports as present
/// exactly what a filter of all these elements reports as present.
pub proof fn lemma_union_is_filter_of_all(
    number_of_hashers: nat,
    bits_per_hasher: nat,
    first: Seq<Seq<u64>>,
    second: Seq<Seq<u64>>,
)
    requires
        number_of_hashers >= 1,
        bits_per_hasher >= 1,
    ensures
        FilterView::empty(number_of_hashers, bits_per_hasher).insert_all(first).union(
            FilterView::empty(number_of_hashers, bits_per_hasher).insert_all(second),
        ) == FilterView::empty(number_of_hashers, bits_per_hasher).insert_all(first + second),
{
    let empty = FilterView::empty(number_of_hashers, bits_per_hasher);
    let filled = empty.insert_all(first);
    lemma_insert_all_keeps_layout(empty, first);
    lemma_union_of_insertions(filled, empty, second);
    assert(filled.union(empty) =~= filled);
    lemma_insert_all_add(empty, first, second);
}

/// To insert the elements of one sequence and then those of another is to
/// insert the elements of the two laid end to end.
pub proof fn lemma_insert_all_add(
    filter: FilterView,
    first: Seq<Seq<u64>>,
    second: Seq<Seq<u64>>,
)
    ensures
        filter.insert_all(first + second) == filter.insert_all(first).insert_all(second),
    decreases second.len(),
{
    if second.len() == 0 {
    } else {
        assert((first + second).drop_last() =~= first + second.drop_last());
        lemma_insert_all_add(filter, first, second.drop_last());
    }
}

} // verus!
