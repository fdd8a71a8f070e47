use bloom_filter_simple::{BloomFilter, DefaultBloomFilter, SingleHasherBloomFilter};
use std::time::Instant;

/// The number of bits and of hashers that a capacity and a false-positive
/// probability call for.
fn sizing(desired_capacity: usize, probability: f64) -> (usize, usize) {
    let bit_count = (-(desired_capacity as f64 * probability.ln()) / (2.0f64.ln().powi(2))).ceil()
        as usize;
    let hashers = ((bit_count as f64 / desired_capacity as f64) * 2.0f64.ln()).round() as usize;
    (bit_count, hashers)
}

fn default_filter(desired_capacity: usize, probability: f64) -> DefaultBloomFilter {
    let (bit_count, hashers) = sizing(desired_capacity, probability);
    DefaultBloomFilter::new(desired_capacity, bit_count, hashers).unwrap()
}

fn single_hasher_filter(desired_capacity: usize, probability: f64) -> SingleHasherBloomFilter {
    let (bit_count, hashers) = sizing(desired_capacity, probability);
    SingleHasherBloomFilter::new(desired_capacity, bit_count, hashers).unwrap()
}

#[test]
fn measure_inserting_km() {
    let mut element_count = 2;
    for _ in 0..23 {
        inserting_km(element_count);
        element_count *= 2;
    }
}

fn inserting_km(element_count: usize) {
    let mut bloomer = default_filter(element_count, 0.001);
    let start = Instant::now();
    for i in 0..element_count {
        bloomer.insert(&i);
    }
    println!(
        "Inserting {} elements into KMBloomFilter took {:?}, or {:?} per element",
        element_count,
        start.elapsed(),
        start.elapsed() / element_count as u32
    );
}

#[test]
fn measure_inserting_seeded() {
    let mut element_count = 2;
    for _ in 0..23 {
        inserting_seeded(element_count);
        element_count *= 2;
    }
}

fn inserting_seeded(element_count: usize) {
    let mut bloomer = single_hasher_filter(element_count, 0.001);
    let start = Instant::now();
    for i in 0..element_count {
        bloomer.insert(&i);
    }
    println!(
        "Inserting {} elements into SingleHasherBloomFilter took {:?}, or {:?} per element",
        element_count,
        start.elapsed(),
        start.elapsed() / element_count as u32
    );
}

#[test]
fn measure_checking_km() {
    let mut element_count = 2;
    for _ in 0..23 {
        checking_km(element_count);
        element_count *= 2;
    }
}

fn checking_km(element_count: usize) {
    let mut bloomer = default_filter(element_count, 0.001);
    for i in 0..element_count {
        bloomer.insert(&i);
    }
    let start = Instant::now();
    for i in 0..element_count {
        bloomer.contains(&i);
    }
    println!(
        "Checking {} elements in KMBloomFilter took {:?}, or {:?} per element",
        element_count,
        start.elapsed(),
        start.elapsed() / element_count as u32
    );
}

#[test]
fn measure_checking_seeded() {
    let mut element_count = 2;
    for _ in 0..23 {
        checking_seeded(element_count);
        element_count *= 2;
    }
}

fn checking_seeded(element_count: usize) {
    let mut bloomer = single_hasher_filter(element_count, 0.001);
    for i in 0..element_count {
        bloomer.insert(&i);
    }
    let start = Instant::now();
    for i in 0..element_count {
        bloomer.contains(&i);
    }
    println!(
        "Checking {} elements in SingleHasherBloomFilter took {:?}, or {:?} per element",
        element_count,
        start.elapsed(),
        start.elapsed() / element_count as u32
    );
}
