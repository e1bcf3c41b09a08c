//! Hamming distances.

use hnsw::distance::{byte_distance, DiscreteDistance, Distance, Hamming, Own};
use hnsw::Metric;

#[test]
fn hamming_counts_the_differing_bits() {
    assert_eq!(Distance::distance(&Hamming(0b1010u8), &Hamming(0b0110u8)), 2);
    assert_eq!(Distance::distance(&Hamming(0xffu8), &Hamming(0u8)), 8);
    assert_eq!(Distance::distance(&Hamming(0x8001u16), &Hamming(0u16)), 2);
    assert_eq!(Distance::distance(&Hamming(u16::MAX), &Hamming(0u16)), 16);
    assert_eq!(Distance::distance(&Hamming(0xf0f0_f0f0u32), &Hamming(0x0f0f_0f0fu32)), 32);
    assert_eq!(Distance::distance(&Hamming(1u32 << 31), &Hamming(0u32)), 1);
    assert_eq!(Distance::distance(&Hamming(u64::MAX), &Hamming(1u64)), 63);
    assert_eq!(Distance::distance(&Hamming(u128::MAX), &Hamming(0u128)), 128);
    assert_eq!(Distance::distance(&Hamming(1u128 << 100), &Hamming(1u128 << 3)), 2);
    assert_eq!(Distance::distance(&Hamming(77u64), &Hamming(77u64)), 0);
}

#[test]
fn hamming_of_byte_strings() {
    let a = Hamming(vec![0xffu8, 0x00, 0x0f]);
    let b = Hamming(vec![0x00u8, 0x00, 0xff]);
    assert_eq!(Distance::distance(&a, &b), 12);
    assert_eq!(Distance::distance(&a, &a), 0);
    // Only the bytes that both have count.
    assert_eq!(byte_distance(&vec![0xff, 0xff], &vec![0x0f]), 4);
    assert_eq!(byte_distance(&vec![], &vec![1, 2, 3]), 0);
}

#[test]
fn own_metric_widens_the_distance() {
    assert_eq!(Own.distance(&Hamming(0b111u8), &Hamming(0b001u8)), 2);
    assert_eq!(Own.distance(&Hamming(u128::MAX), &Hamming(0u128)), 128);
}

#[test]
fn discrete_distances_stay_below_their_count() {
    assert_eq!(Hamming::<u8>::distance_count(), 9);
    assert_eq!(Hamming::<u16>::distance_count(), 17);
    assert_eq!(Hamming::<u32>::distance_count(), 33);
    assert_eq!(Hamming::<u64>::distance_count(), 65);
    assert_eq!(Hamming::<u128>::distance_count(), 129);
    assert_eq!(DiscreteDistance::discrete_distance(&Hamming(0xffu8), &Hamming(0u8)), 8);
    assert_eq!(DiscreteDistance::discrete_distance(&Hamming(0xf00fu16), &Hamming(0x0ff0u16)), 16);
    assert_eq!(DiscreteDistance::discrete_distance(&Hamming(7u32), &Hamming(1u32)), 2);
    assert_eq!(DiscreteDistance::discrete_distance(&Hamming(u64::MAX), &Hamming(0u64)), 64);
    assert_eq!(DiscreteDistance::discrete_distance(&Hamming(u128::MAX), &Hamming(1u128)), 127);
}
