use bloom_filter_simple::{
    BloomFilter, BloomFilterData, ConfigEq, FilterError, SingleHasherBloomFilter, Union,
};

/// The number of bits and of hashers that a capacity and a false-positive
/// probability call for.
fn sizing(desired_capacity: usize, probability: f64) -> (usize, usize) {
    let bit_count = (-(desired_capacity as f64 * probability.ln()) / (2.0f64.ln().powi(2))).ceil()
        as usize;
    let hashers = ((bit_count as f64 / desired_capacity as f64) * 2.0f64.ln()).round() as usize;
    (bit_count, hashers)
}

fn single_hasher_filter(desired_capacity: usize, probability: f64) -> SingleHasherBloomFilter {
    let (bit_count, hashers) = sizing(desired_capacity, probability);
    SingleHasherBloomFilter::new(desired_capacity, bit_count, hashers).unwrap()
}

#[test]
fn single_hasher_sizing_gives_the_layout() {
    let filter = single_hasher_filter(10_000, 0.0001);
    assert_eq!(13, filter.number_of_hashers());
    assert_eq!(14747, filter.bits_per_hasher());
    assert_eq!(13 * 14747, filter.data().len());
    assert_eq!(0, filter.data().count_ones());

    let filter = SingleHasherBloomFilter::new(1, 5, 0).unwrap();
    assert_eq!(1, filter.number_of_hashers());
    assert_eq!(5, filter.bits_per_hasher());
}

#[test]
fn single_hasher_refuses_what_cannot_be_built() {
    assert_eq!(
        Some(FilterError::InvalidArgument),
        SingleHasherBloomFilter::new(0, 10, 2).err()
    );
    assert_eq!(
        Some(FilterError::InvalidArgument),
        SingleHasherBloomFilter::new(10, 0, 2).err()
    );
    assert_eq!(
        Some(FilterError::InvalidArgument),
        SingleHasherBloomFilter::new(10, usize::MAX, 2).err()
    );
}

#[test]
fn single_hasher_index_stays_in_the_region() {
    assert_eq!(5, SingleHasherBloomFilter::index(0, 7, 5));
    assert_eq!(7, SingleHasherBloomFilter::index(1, 7, 14));
    assert_eq!(16, SingleHasherBloomFilter::index(2, 7, 23));
    assert_eq!(30 + 5, SingleHasherBloomFilter::index(3, 10, u64::MAX));
    assert_eq!(9, SingleHasherBloomFilter::index(9, 1, 77));
}

#[test]
fn single_hasher_insert_hashes_sets_one_bit_in_each_region() {
    let mut filter = SingleHasherBloomFilter::new(10, 20, 3).unwrap();
    assert_eq!(Ok(()), filter.insert_hashes(&[5, 14, 23]));
    assert_eq!(3, filter.data().count_ones());
    for i in 0..21 {
        assert_eq!(Ok(i == 5 || i == 7 || i == 16), filter.data().get(i));
    }
    assert_eq!(Ok(true), filter.contains_hashes(&[5, 14, 23]));
    assert_eq!(Ok(true), filter.contains_hashes(&[12, 0, 2]));
    assert_eq!(Ok(false), filter.contains_hashes(&[5, 14, 24]));
    assert_eq!(Ok(false), filter.contains_hashes(&[5, 15, 23]));
    assert_eq!(Ok(false), filter.contains_hashes(&[6, 14, 23]));
}

#[test]
fn single_hasher_wants_one_hash_for_each_hasher() {
    let mut filter = SingleHasherBloomFilter::new(10, 20, 3).unwrap();
    assert_eq!(Err(FilterError::InvalidArgument), filter.insert_hashes(&[5, 14]));
    assert_eq!(Err(FilterError::InvalidArgument), filter.insert_hashes(&[5, 14, 23, 1]));
    assert_eq!(Err(FilterError::InvalidArgument), filter.insert_hashes(&[]));
    assert_eq!(0, filter.data().count_ones());
    assert_eq!(Err(FilterError::InvalidArgument), filter.contains_hashes(&[5, 14]));
    assert_eq!(Err(FilterError::InvalidArgument), filter.contains_hashes(&[5, 14, 23, 1]));
    assert_eq!(Ok(false), filter.contains_hashes(&[5, 14, 23]));
}

#[test]
fn single_hasher_contains_what_was_inserted() {
    let mut filter = single_hasher_filter(10_000, 0.0001);

    filter.insert(&5i32);
    filter.insert(&"Some text");
    filter.insert(&10_000usize);

    assert_eq!(false, filter.contains(&3));
    assert_eq!(true, filter.contains(&5));
    assert_eq!(true, filter.contains(&"Some text"));
    assert_eq!(true, filter.contains(&10_000usize));
    assert!(filter.data().count_ones() <= 3 * 13);
    assert!(filter.data().count_ones() >= 13);
}

#[test]
fn single_hasher_keeps_everything_it_was_given() {
    let mut filter = single_hasher_filter(3000, 0.01);
    for i in 0..3000u64 {
        filter.insert(&i);
    }
    for i in 0..3000u64 {
        assert!(filter.contains(&i));
    }
    let false_positives = (3000..6000u64).filter(|i| filter.contains(i)).count();
    assert!(false_positives < 90);
}

#[test]
fn single_hasher_inserting_again_changes_nothing() {
    let mut filter = single_hasher_filter(100, 0.01);
    for i in 0..50 {
        filter.insert(&i);
    }
    let before = filter.data().clone();
    for i in 0..50 {
        filter.insert(&i);
    }
    for i in 0..before.len() {
        assert_eq!(before.get(i), filter.data().get(i));
    }
}

#[test]
fn single_hasher_intersection_of_two_filters() {
    let mut filter_one = single_hasher_filter(10_000, 0.0001);
    let mut filter_two = single_hasher_filter(10_000, 0.0001);

    filter_one.insert(&0);
    filter_one.insert(&1);

    filter_two.insert(&1);
    filter_two.insert(&2);

    let filter_intersection = filter_one.intersect(&filter_two).unwrap();

    assert_eq!(false, filter_intersection.contains(&0));
    assert_eq!(true, filter_intersection.contains(&1));
    assert_eq!(false, filter_intersection.contains(&2));
}

#[test]
fn single_hasher_union_of_two_filters() {
    let mut filter_one = single_hasher_filter(10_000, 0.0001);
    let mut filter_two = single_hasher_filter(10_000, 0.0001);

    filter_one.insert(&0);
    filter_one.insert(&1);

    filter_two.insert(&2);
    filter_two.insert(&3);

    let filter_union = filter_one.union(&filter_two).unwrap();

    for i in 0..4 {
        assert_eq!(true, filter_union.contains(&i));
    }
    assert_eq!(false, filter_union.contains(&4));
    let ones = filter_union.data().count_ones();
    assert!(ones <= filter_one.data().count_ones() + filter_two.data().count_ones());
    assert!(ones >= filter_one.data().count_ones());
    assert!(ones >= filter_two.data().count_ones());
}

#[test]
fn single_hasher_filters_of_other_sizes_do_not_combine() {
    let a = single_hasher_filter(1000, 0.001);
    let b = single_hasher_filter(1000, 0.002);
    let c = single_hasher_filter(999, 0.001);
    assert!(a.eq_configuration(&single_hasher_filter(1000, 0.001)));
    assert!(!a.eq_configuration(&b));
    assert!(!a.eq_configuration(&c));
    assert!(!a.config_eq(&b));
    assert_eq!(Some(FilterError::ConfigMismatch), a.union(&b).err());
    assert_eq!(Some(FilterError::ConfigMismatch), a.intersect(&b).err());
    assert_eq!(Some(FilterError::ConfigMismatch), a.union(&c).err());
    assert_eq!(Some(FilterError::ConfigMismatch), a.intersect(&c).err());
}

#[test]
fn single_hasher_set_data_takes_bits_of_the_same_number_only() {
    let mut filter = SingleHasherBloomFilter::new(10, 20, 3).unwrap();
    let mut source = filter.clone();
    source.insert_hashes(&[1, 2, 3]).unwrap();
    assert_eq!(Ok(()), filter.set_data(source.data().clone()));
    assert_eq!(Ok(true), filter.contains_hashes(&[1, 2, 3]));

    let shorter = SingleHasherBloomFilter::new(10, 18, 3).unwrap();
    assert_eq!(
        Err(FilterError::ConfigMismatch),
        filter.set_data(shorter.data().clone())
    );
    assert_eq!(Ok(true), filter.contains_hashes(&[1, 2, 3]));
}
