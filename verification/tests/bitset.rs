use bloom_filter_simple::bitset::Bitset;
use bloom_filter_simple::FilterError;

#[test]
fn bitset_with_length() {
    let bitset = Bitset::new(1).unwrap();
    assert_eq!(1, bitset.len());
    assert_eq!(1, bitset.len());
    assert_eq!(1, bitset.byte_len());

    let bitset = Bitset::new(8).unwrap();
    assert_eq!(8, bitset.len());
    assert_eq!(8, bitset.len());
    assert_eq!(1, bitset.byte_len());

    let bitset = Bitset::new(9).unwrap();
    assert_eq!(9, bitset.len());
    assert_eq!(9, bitset.len());
    assert_eq!(2, bitset.byte_len());
}

#[test]
fn set_first_bit_only() {
    let mut bitset = Bitset::new(3).unwrap();
    bitset.set(0, true).unwrap();
    assert_eq!(true, bitset.get(0).unwrap());
    assert_eq!(false, bitset.get(1).unwrap());
    assert_eq!(false, bitset.get(2).unwrap());
}

#[test]
fn set_last_bit_only() {
    let mut bitset = Bitset::new(9).unwrap();
    bitset.set(8, true).unwrap();
    for i in 0..8 {
        assert_eq!(false, bitset.get(i).unwrap());
    }
    assert_eq!(true, bitset.get(8).unwrap());
}

#[test]
#[should_panic(expected = "out of bounds")]
fn must_set_with_correct_index() {
    let mut bitset = Bitset::new(5).unwrap();
    if let Err(FilterError::IndexOutOfRange) = bitset.set(5, true) {
        panic!(
            "index out of bounds: the len is {} but the index is {}",
            bitset.len(),
            5
        );
    }
}

#[test]
#[should_panic(expected = "out of bounds")]
fn must_get_with_correct_index() {
    let bitset = Bitset::new(12).unwrap();
    if let Err(FilterError::IndexOutOfRange) = bitset.get(12) {
        panic!(
            "index out of bounds: the len is {} but the index is {}",
            bitset.len(),
            12
        );
    }
}

#[test]
fn set_and_unset_possible() {
    let mut bitset = Bitset::new(24).unwrap();
    for i in 0..24 {
        assert_eq!(false, bitset.get(i).unwrap());
    }

    bitset.set(0, true).unwrap();
    bitset.set(7, true).unwrap();
    bitset.set(8, true).unwrap();
    bitset.set(23, true).unwrap();

    assert_eq!(true, bitset.get(0).unwrap());
    assert_eq!(true, bitset.get(7).unwrap());
    assert_eq!(true, bitset.get(8).unwrap());
    assert_eq!(true, bitset.get(23).unwrap());

    bitset.set(0, true).unwrap();
    bitset.set(8, false).unwrap();
    bitset.set(23, false).unwrap();

    assert_eq!(true, bitset.get(0).unwrap());
    assert_eq!(true, bitset.get(7).unwrap());
    assert_eq!(false, bitset.get(8).unwrap());
    assert_eq!(false, bitset.get(23).unwrap());
}

#[test]
fn set_each_bit_one_by_one() {
    let mut bitset = Bitset::new(9).unwrap();
    assert_eq!(0, bitset.count_ones());

    bitset.set(0, true).unwrap();
    assert_eq!(true, bitset.get(0).unwrap());
    assert_eq!(1, bitset.count_ones());

    bitset.set(1, true).unwrap();
    assert_eq!(true, bitset.get(1).unwrap());
    assert_eq!(2, bitset.count_ones());

    bitset.set(2, true).unwrap();
    assert_eq!(true, bitset.get(2).unwrap());
    assert_eq!(3, bitset.count_ones());

    bitset.set(3, true).unwrap();
    assert_eq!(true, bitset.get(3).unwrap());
    assert_eq!(4, bitset.count_ones());

    bitset.set(4, true).unwrap();
    assert_eq!(true, bitset.get(4).unwrap());
    assert_eq!(5, bitset.count_ones());

    bitset.set(5, true).unwrap();
    assert_eq!(true, bitset.get(5).unwrap());
    assert_eq!(6, bitset.count_ones());

    bitset.set(6, true).unwrap();
    assert_eq!(true, bitset.get(6).unwrap());
    assert_eq!(7, bitset.count_ones());

    bitset.set(7, true).unwrap();
    assert_eq!(true, bitset.get(7).unwrap());
    assert_eq!(8, bitset.count_ones());

    bitset.set(8, true).unwrap();
    assert_eq!(true, bitset.get(8).unwrap());
    assert_eq!(9, bitset.count_ones());
}

#[test]
fn unset_each_bit_one_by_one() {
    let mut bitset = Bitset::new(9).unwrap();
    for i in 0..bitset.len() {
        bitset.set(i, true).unwrap();
    }
    assert_eq!(9, bitset.count_ones());

    bitset.set(0, false).unwrap();
    assert_eq!(false, bitset.get(0).unwrap());
    assert_eq!(8, bitset.count_ones());

    bitset.set(1, false).unwrap();
    assert_eq!(false, bitset.get(1).unwrap());
    assert_eq!(7, bitset.count_ones());

    bitset.set(2, false).unwrap();
    assert_eq!(false, bitset.get(2).unwrap());
    assert_eq!(6, bitset.count_ones());

    bitset.set(3, false).unwrap();
    assert_eq!(false, bitset.get(3).unwrap());
    assert_eq!(5, bitset.count_ones());

    bitset.set(4, false).unwrap();
    assert_eq!(false, bitset.get(4).unwrap());
    assert_eq!(4, bitset.count_ones());

    bitset.set(5, false).unwrap();
    assert_eq!(false, bitset.get(5).unwrap());
    assert_eq!(3, bitset.count_ones());

    bitset.set(6, false).unwrap();
    assert_eq!(false, bitset.get(6).unwrap());
    assert_eq!(2, bitset.count_ones());

    bitset.set(7, false).unwrap();
    assert_eq!(false, bitset.get(7).unwrap());
    assert_eq!(1, bitset.count_ones());

    bitset.set(8, false).unwrap();
    assert_eq!(false, bitset.get(8).unwrap());
    assert_eq!(0, bitset.count_ones());
}

#[test]
fn bitset_union_test() {
    let mut bitset_a = Bitset::new(6).unwrap();
    assert_eq!(0, bitset_a.count_ones());

    bitset_a.set(0, true).unwrap();
    assert_eq!(true, bitset_a.get(0).unwrap());
    assert_eq!(1, bitset_a.count_ones());

    bitset_a.set(3, true).unwrap();
    assert_eq!(true, bitset_a.get(3).unwrap());
    assert_eq!(2, bitset_a.count_ones());

    let mut bitset_b = Bitset::new(6).unwrap();
    assert_eq!(0, bitset_b.count_ones());

    bitset_b.set(2, true).unwrap();
    assert_eq!(true, bitset_b.get(2).unwrap());
    assert_eq!(1, bitset_b.count_ones());

    bitset_b.set(3, true).unwrap();
    assert_eq!(true, bitset_b.get(3).unwrap());
    assert_eq!(2, bitset_b.count_ones());

    bitset_b.set(5, true).unwrap();
    assert_eq!(true, bitset_b.get(5).unwrap());
    assert_eq!(3, bitset_b.count_ones());

    let bitset = bitset_a.union(&bitset_b).unwrap();
    assert_eq!(4, bitset.count_ones());
    assert_eq!(true, bitset.get(0).unwrap());
    assert_eq!(true, bitset.get(2).unwrap());
    assert_eq!(true, bitset.get(3).unwrap());
    assert_eq!(true, bitset.get(5).unwrap());
}

#[test]
fn bitset_intersect_test() {
    let mut bitset_a = Bitset::new(6).unwrap();
    assert_eq!(0, bitset_a.count_ones());

    bitset_a.set(0, true).unwrap();
    assert_eq!(true, bitset_a.get(0).unwrap());
    assert_eq!(1, bitset_a.count_ones());

    bitset_a.set(3, true).unwrap();
    assert_eq!(true, bitset_a.get(3).unwrap());
    assert_eq!(2, bitset_a.count_ones());

    let mut bitset_b = Bitset::new(6).unwrap();
    assert_eq!(0, bitset_b.count_ones());

    bitset_b.set(2, true).unwrap();
    assert_eq!(true, bitset_b.get(2).unwrap());
    assert_eq!(1, bitset_b.count_ones());

    bitset_b.set(3, true).unwrap();
    assert_eq!(true, bitset_b.get(3).unwrap());
    assert_eq!(2, bitset_b.count_ones());

    bitset_b.set(5, true).unwrap();
    assert_eq!(true, bitset_b.get(5).unwrap());
    assert_eq!(3, bitset_b.count_ones());

    let bitset = bitset_a.intersect(&bitset_b).unwrap();
    assert_eq!(1, bitset.count_ones());
    assert_eq!(false, bitset.get(0).unwrap());
    assert_eq!(false, bitset.get(2).unwrap());
    assert_eq!(true, bitset.get(3).unwrap());
    assert_eq!(false, bitset.get(5).unwrap());
}

#[test]
fn new_with_length_zero_is_refused() {
    assert_eq!(Some(FilterError::InvalidArgument), Bitset::new(0).err());
}

#[test]
fn all_bits_start_clear() {
    let bitset = Bitset::new(21).unwrap();
    for i in 0..21 {
        assert_eq!(Ok(false), bitset.get(i));
    }
    assert_eq!(0, bitset.count_ones());
}

#[test]
fn get_at_length_and_beyond_is_out_of_range() {
    let bitset = Bitset::new(12).unwrap();
    assert_eq!(Ok(false), bitset.get(11));
    assert_eq!(Err(FilterError::IndexOutOfRange), bitset.get(12));
    assert_eq!(Err(FilterError::IndexOutOfRange), bitset.get(13));
    assert_eq!(Err(FilterError::IndexOutOfRange), bitset.get(15));
    assert_eq!(Err(FilterError::IndexOutOfRange), bitset.get(usize::MAX));
}

#[test]
fn set_at_length_and_beyond_is_out_of_range() {
    let mut bitset = Bitset::new(5).unwrap();
    assert_eq!(Err(FilterError::IndexOutOfRange), bitset.set(5, true));
    assert_eq!(Err(FilterError::IndexOutOfRange), bitset.set(7, true));
    assert_eq!(Err(FilterError::IndexOutOfRange), bitset.set(usize::MAX, false));
    assert_eq!(0, bitset.count_ones());
    assert_eq!(Ok(()), bitset.set(4, true));
    assert_eq!(1, bitset.count_ones());
}

#[test]
fn set_leaves_other_bits_alone() {
    let mut bitset = Bitset::new(19).unwrap();
    for i in [1usize, 6, 7, 8, 15, 18] {
        bitset.set(i, true).unwrap();
    }
    bitset.set(7, false).unwrap();
    bitset.set(9, true).unwrap();
    let expected = [1usize, 6, 8, 9, 15, 18];
    for i in 0..19 {
        assert_eq!(Ok(expected.contains(&i)), bitset.get(i));
    }
}

#[test]
fn count_ones_counts_every_set_bit_of_a_byte() {
    let mut bitset = Bitset::new(16).unwrap();
    for i in [0usize, 1, 2, 9, 15] {
        bitset.set(i, true).unwrap();
    }
    assert_eq!(5, bitset.count_ones());
    assert_eq!(11, bitset.count_zeros());
}

#[test]
fn count_zeros_counts_the_unused_bits_of_the_last_byte() {
    let mut bitset = Bitset::new(9).unwrap();
    assert_eq!(16, bitset.count_zeros());
    bitset.set(8, true).unwrap();
    assert_eq!(15, bitset.count_zeros());
    let full = Bitset::new(8).unwrap();
    assert_eq!(8, full.count_zeros());
}

#[test]
fn byte_length_rounds_up() {
    assert_eq!(1, Bitset::new(7).unwrap().byte_len());
    assert_eq!(2, Bitset::new(16).unwrap().byte_len());
    assert_eq!(3, Bitset::new(17).unwrap().byte_len());
    assert_eq!(125, Bitset::new(1000).unwrap().byte_len());
}

#[test]
fn union_and_intersect_refuse_other_lengths() {
    let a = Bitset::new(8).unwrap();
    let b = Bitset::new(9).unwrap();
    assert_eq!(Some(FilterError::ConfigMismatch), a.union(&b).err());
    assert_eq!(Some(FilterError::ConfigMismatch), a.intersect(&b).err());
    assert_eq!(Some(FilterError::ConfigMismatch), b.union(&a).err());
    assert_eq!(Some(FilterError::ConfigMismatch), b.intersect(&a).err());
}

#[test]
fn union_and_intersect_leave_their_operands_alone() {
    let mut a = Bitset::new(10).unwrap();
    let mut b = Bitset::new(10).unwrap();
    a.set(1, true).unwrap();
    a.set(9, true).unwrap();
    b.set(9, true).unwrap();
    b.set(4, true).unwrap();
    let union = a.union(&b).unwrap();
    let intersection = a.intersect(&b).unwrap();
    assert_eq!(10, union.len());
    assert_eq!(10, intersection.len());
    assert_eq!(3, union.count_ones());
    assert_eq!(1, intersection.count_ones());
    assert_eq!(Ok(true), intersection.get(9));
    assert_eq!(2, a.count_ones());
    assert_eq!(2, b.count_ones());
    assert_eq!(Ok(false), a.get(4));
    assert_eq!(Ok(false), b.get(1));
}

#[test]
fn clone_has_the_same_bits_and_a_life_of_its_own() {
    let mut source = Bitset::new(11).unwrap();
    source.set(3, true).unwrap();
    let mut copy = source.clone();
    assert_eq!(11, copy.len());
    assert_eq!(Ok(true), copy.get(3));
    copy.set(10, true).unwrap();
    assert_eq!(Ok(false), source.get(10));
    assert_eq!(1, source.count_ones());
    assert_eq!(2, copy.count_ones());
}
