//! Distances that a point type computes for itself, and the Hamming distance of bit
//! strings among them.
use vstd::prelude::*;
use crate::metric::Metric;

verus! {

/// The number of ones in the binary representation of a number.
pub open spec fn ones(x: nat) -> nat
    decreases x,
{
    if x == 0 {
        0
    } else {
        (x % 2) + ones(x / 2)
    }
}

/// Calls `u8::count_ones`, which counts the ones in the binary representation of the
/// number; there are at most 8.
#[verifier::external_body]
fn count_ones_u8(x: u8) -> (n: u32)
    ensures
        n == ones(x as nat),
        n <= 8,
{
    x.count_ones()
}

/// Calls `u16::count_ones`, which counts the ones in the binary representation of the
/// number; there are at most 16.
#[verifier::external_body]
fn count_ones_u16(x: u16) -> (n: u32)
    ensures
        n == ones(x as nat),
        n <= 16,
{
    x.count_ones()
}

/// Calls `u32::count_ones`, which counts the ones in the binary representation of the
/// number; there are at most 32.
#[verifier::external_body]
fn count_ones_u32(x: u32) -> (n: u32)
    ensures
        n == ones(x as nat),
        n <= 32,
{
    x.count_ones()
}

/// Calls `u64::count_ones`, which counts the ones in the binary representation of the
/// number; there are at most 64.
#[verifier::external_body]
fn count_ones_u64(x: u64) -> (n: u32)
    ensures
        n == ones(x as nat),
        n <= 64,
{
    x.count_ones()
}

/// Calls `u128::count_ones`, which counts the ones in the binary representation of the
/// number; there are at most 128.
#[verifier::external_body]
pub(crate) fn count_ones_u128(x: u128) -> (n: u32)
    ensures
        n == ones(x as nat),
        n <= 128,
{
    x.count_ones()
}

/// A point type that computes the distance between two of its values as a `u32`.
pub trait Distance {
    /// The distance between two points, as a mathematical function of them.
    spec fn dist(lhs: &Self, rhs: &Self) -> u32;

    /// Computes the distance between two points.
    fn distance(lhs: &Self, rhs: &Self) -> (d: u32)
        ensures
            d == Self::dist(lhs, rhs),
    ;
}

/// Treats each bit contained in this struct as its own dimension; the distance is the
/// number of bits in which two values differ.
#[derive(Clone, Copy, Debug, PartialOrd, Ord, PartialEq, Eq)]
pub struct Hamming<T>(pub T);

impl Distance for Hamming<u8> {
    open spec fn dist(lhs: &Self, rhs: &Self) -> u32 {
        ones((lhs.0 ^ rhs.0) as nat) as u32
    }

    fn distance(lhs: &Self, rhs: &Self) -> (d: u32) {
        count_ones_u8(lhs.0 ^ rhs.0)
    }
}

impl Distance for Hamming<u16> {
    open spec fn dist(lhs: &Self, rhs: &Self) -> u32 {
        ones((lhs.0 ^ rhs.0) as nat) as u32
    }

    fn distance(lhs: &Self, rhs: &Self) -> (d: u32) {
        count_ones_u16(lhs.0 ^ rhs.0)
    }
}

impl Distance for Hamming<u32> {
    open spec fn dist(lhs: &Self, rhs: &Self) -> u32 {
        ones((lhs.0 ^ rhs.0) as nat) as u32
    }

    fn distance(lhs: &Self, rhs: &Self) -> (d: u32) {
        count_ones_u32(lhs.0 ^ rhs.0)
    }
}

impl Distance for Hamming<u64> {
    open spec fn dist(lhs: &Self, rhs: &Self) -> u32 {
        ones((lhs.0 ^ rhs.0) as nat) as u32
    }

    fn distance(lhs: &Self, rhs: &Self) -> (d: u32) {
        count_ones_u64(lhs.0 ^ rhs.0)
    }
}

impl Distance for Hamming<u128> {
    open spec fn dist(lhs: &Self, rhs: &Self) -> u32 {
        ones((lhs.0 ^ rhs.0) as nat) as u32
    }

    fn distance(lhs: &Self, rhs: &Self) -> (d: u32) {
        count_ones_u128(lhs.0 ^ rhs.0)
    }
}

/// A point type whose distances are whole numbers below a bound that is known beforehand,
/// so that a queue can keep one bucket for each distance.
pub trait DiscreteDistance {
    /// The number of distances that there are: one more than the greatest distance.
    spec fn distances() -> nat;

    /// The distance between two points, as a mathematical function of them.
    spec fn discrete_dist(lhs: &Self, rhs: &Self) -> u32;

    /// The number of distances that there are.
    fn distance_count() -> (n: usize)
        ensures
            n == Self::distances(),
    ;

    /// Computes the distance between two points.
    fn discrete_distance(lhs: &Self, rhs: &Self) -> (d: u32)
        ensures
            d == Self::discrete_dist(lhs, rhs),
            d < Self::distances(),
    ;
}

impl DiscreteDistance for Hamming<u8> {
    open spec fn distances() -> nat {
        9
    }

    open spec fn discrete_dist(lhs: &Self, rhs: &Self) -> u32 {
        ones((lhs.0 ^ rhs.0) as nat) as u32
    }

    fn distance_count() -> (n: usize) {
        9
    }

    fn discrete_distance(lhs: &Self, rhs: &Self) -> (d: u32) {
        count_ones_u8(lhs.0 ^ rhs.0)
    }
}

impl DiscreteDistance for Hamming<u16> {
    open spec fn distances() -> nat {
        17
    }

    open spec fn discrete_dist(lhs: &Self, rhs: &Self) -> u32 {
        ones((lhs.0 ^ rhs.0) as nat) as u32
    }

    fn distance_count() -> (n: usize) {
        17
    }

    fn discrete_distance(lhs: &Self, rhs: &Self) -> (d: u32) {
        count_ones_u16(lhs.0 ^ rhs.0)
    }
}

impl DiscreteDistance for Hamming<u32> {
    open spec fn distances() -> nat {
        33
    }

    open spec fn discrete_dist(lhs: &Self, rhs: &Self) -> u32 {
        ones((lhs.0 ^ rhs.0) as nat) as u32
    }

    fn distance_count() -> (n: usize) {
        33
    }

    fn discrete_distance(lhs: &Self, rhs: &Self) -> (d: u32) {
        count_ones_u32(lhs.0 ^ rhs.0)
    }
}

impl DiscreteDistance for Hamming<u64> {
    open spec fn distances() -> nat {
        65
    }

    open spec fn discrete_dist(lhs: &Self, rhs: &Self) -> u32 {
        ones((lhs.0 ^ rhs.0) as nat) as u32
    }

    fn distance_count() -> (n: usize) {
        65
    }

    fn discrete_distance(lhs: &Self, rhs: &Self) -> (d: u32) {
        count_ones_u64(lhs.0 ^ rhs.0)
    }
}

impl DiscreteDistance for Hamming<u128> {
    open spec fn distances() -> nat {
        129
    }

    open spec fn discrete_dist(lhs: &Self, rhs: &Self) -> u32 {
        ones((lhs.0 ^ rhs.0) as nat) as u32
    }

    fn distance_count() -> (n: usize) {
        129
    }

    fn discrete_distance(lhs: &Self, rhs: &Self) -> (d: u32) {
        count_ones_u128(lhs.0 ^ rhs.0)
    }
}

/// The number of bits in which the first `n` bytes of two byte strings differ.
pub open spec fn differing_bits(lhs: Seq<u8>, rhs: Seq<u8>, n: nat) -> nat
    decreases n,
{
    if n == 0 {
        0
    } else {
        differing_bits(lhs, rhs, (n - 1) as nat) + ones((lhs[n - 1] ^ rhs[n - 1]) as nat)
    }
}

/// The length of the shorter of two byte strings.
pub open spec fn common_len(lhs: Seq<u8>, rhs: Seq<u8>) -> nat {
    if lhs.len() <= rhs.len() {
        lhs.len()
    } else {
        rhs.len()
    }
}

/// The Hamming distance of two byte strings, over the bytes that both have. Where the
/// distance is beyond the range of a `u32`, the greatest `u32` stands for it.
pub fn byte_distance(lhs: &Vec<u8>, rhs: &Vec<u8>) -> (d: u32)
    ensures
        d == if differing_bits(lhs@, rhs@, common_len(lhs@, rhs@)) <= u32::MAX {
            differing_bits(lhs@, rhs@, common_len(lhs@, rhs@)) as u32
        } else {
            u32::MAX
        },
{
    let n: usize = if lhs.len() <= rhs.len() {
        lhs.len()
    } else {
        rhs.len()
    };
    let mut sum: u32 = 0;
    let mut i: usize = 0;
    while i < n
        invariant
            0 <= i <= n,
            n == common_len(lhs@, rhs@),
            sum == if differing_bits(lhs@, rhs@, i as nat) <= u32::MAX {
                differing_bits(lhs@, rhs@, i as nat) as u32
            } else {
                u32::MAX
            },
        decreases n - i,
    {
        let bits = count_ones_u8(lhs[i] ^ rhs[i]);
        sum = if sum <= u32::MAX - bits {
            sum + bits
        } else {
            u32::MAX
        };
        i += 1;
    }
    sum
}

impl Distance for Hamming<Vec<u8>> {
    open spec fn dist(lhs: &Self, rhs: &Self) -> u32 {
        if differing_bits(lhs.0@, rhs.0@, common_len(lhs.0@, rhs.0@)) <= u32::MAX {
            differing_bits(lhs.0@, rhs.0@, common_len(lhs.0@, rhs.0@)) as u32
        } else {
            u32::MAX
        }
    }

    fn distance(lhs: &Self, rhs: &Self) -> (d: u32) {
        byte_distance(&lhs.0, &rhs.0)
    }
}

/// The metric of a point type that computes its own distances.
#[derive(Clone, Copy, Debug, Default)]
pub struct Own;

impl<T: Distance> Metric<T> for Own {
    open spec fn dist(&self, a: &T, b: &T) -> u64 {
        T::dist(a, b) as u64
    }

    fn distance(&self, a: &T, b: &T) -> (d: u64) {
        T::distance(a, b) as u64
    }
}

} // verus!
