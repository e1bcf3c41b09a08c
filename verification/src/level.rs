//! The level of a new point, from a sample drawn for it, and the generator of samples
//! that an index has by default.
use vstd::prelude::*;
use vstd::arithmetic::power::pow;
use vstd::arithmetic::power2::{lemma2_to64, lemma_pow2_strictly_increases, pow2};

verus! {

/// The generator that an index draws its samples from when none is handed to it.
#[verifier::external_type_specification]
#[verifier::external_body]
pub struct ExPcg64(rand_pcg::Lcg128Xsl64);

/// Calls `rand_core::RngCore::next_u64` on the generator. The result depends on the state of
/// the generator, of which nothing is known here, so nothing is claimed of it.
#[verifier::external_body]
pub(crate) fn next_sample(prng: &mut rand_pcg::Pcg64) -> (sample: u64) {
    rand_core::RngCore::next_u64(prng)
}

/// Calls `rand_core::SeedableRng::from_seed` with the all-zero seed.
#[verifier::external_body]
pub(crate) fn default_prng() -> (prng: rand_pcg::Pcg64) {
    rand_core::SeedableRng::from_seed(Default::default())
}

/// The number that a level is computed from: the sample itself, and 1 for the sample 0.
pub open spec fn positive(sample: u64) -> nat {
    if sample == 0 {
        1
    } else {
        sample as nat
    }
}

/// How often `x` can be multiplied by `m` without passing the greatest 64-bit number.
pub open spec fn level_from(x: nat, m: nat) -> nat
    decreases u64::MAX - x,
{
    if m < 2 || x == 0 || x * m > u64::MAX {
        0
    } else {
        proof {
            assert(x * m > x) by (nonlinear_arith)
                requires
                    m >= 2,
                    x >= 1,
            ;
        }
        1 + level_from(x * m, m)
    }
}

/// The level of a point drawn with a sample, in an index whose nodes have `m` neighbours
/// above the zero layer: with the sample read as the fraction `u` of the greatest 64-bit
/// number, the greatest whole number that is at most the logarithm of `1 / u` to base `m`.
/// It is 0 where `m` is less than 2.
pub open spec fn sample_level(sample: u64, m: nat) -> nat {
    level_from(positive(sample), m)
}

/// `level_from` is the greatest exponent `l` for which `x * m^l` is a 64-bit number.
pub proof fn lemma_level_from(x: nat, m: nat)
    requires
        m >= 2,
        1 <= x <= u64::MAX,
    ensures
        x * pow(m as int, level_from(x, m)) <= u64::MAX,
        x * pow(m as int, level_from(x, m) + 1) > u64::MAX,
        x * pow2(level_from(x, m)) <= u64::MAX,
        level_from(x, m) <= 63,
    decreases u64::MAX - x,
{
    reveal(pow);
    reveal(pow2);
    let l = level_from(x, m);
    if x * m > u64::MAX {
        assert(pow(m as int, 1) == m) by {
            assert(pow(m as int, 0) == 1);
            assert(pow(m as int, 1) == m * pow(m as int, 0));
        }
        assert(pow2(0) == 1);
    } else {
        assert(x * m > x) by (nonlinear_arith)
            requires
                m >= 2,
                x >= 1,
        ;
        let k = level_from(x * m, m);
        lemma_level_from(x * m, m);
        assert(l == k + 1);
        let pk = pow(m as int, k);
        let pk1 = pow(m as int, k + 1);
        assert(pk1 == m * pk);
        assert(pow(m as int, l + 1) == m * pk1);
        assert(x * pk1 == (x * m) * pk) by (nonlinear_arith)
            requires
                pk1 == m * pk,
        ;
        assert(x * (m * pk1) == (x * m) * pk1) by (nonlinear_arith);
        let qk = pow2(k);
        assert(pow2(l) == 2 * qk) by {
            vstd::arithmetic::power2::lemma_pow2_unfold(l);
        }
        assert(x * (2 * qk) <= (x * m) * qk) by (nonlinear_arith)
            requires
                m >= 2,
                qk >= 0,
        ;
    }
    if l >= 64 {
        lemma2_to64();
        if l > 64 {
            lemma_pow2_strictly_increases(64, l);
        }
        assert(x * pow2(l) >= pow2(l)) by (nonlinear_arith)
            requires
                x >= 1,
                pow2(l) >= 0,
        ;
    }
}

/// The level of a point, from the sample drawn for it.
pub fn level_of_sample(sample: u64, m: usize) -> (level: usize)
    ensures
        level == sample_level(sample, m as nat),
        level <= 63,
        m >= 2 ==> positive(sample) * pow(m as int, level as nat) <= u64::MAX < positive(sample)
            * pow(m as int, (level + 1) as nat),
{
    if m < 2 {
        return 0;
    }
    let base: u64 = m as u64;
    let mut acc: u64 = if sample == 0 {
        1
    } else {
        sample
    };
    let mut level: usize = 0;
    proof {
        lemma_level_from(positive(sample), m as nat);
    }
    while acc <= u64::MAX / base
        invariant
            base == m,
            m >= 2,
            acc >= 1,
            level + level_from(acc as nat, m as nat) == level_from(positive(sample), m as nat),
            level_from(positive(sample), m as nat) <= 63,
        decreases u64::MAX - acc,
    {
        proof {
            assert(acc * base <= u64::MAX) by (nonlinear_arith)
                requires
                    acc <= u64::MAX / base,
                    base >= 2,
            ;
            assert(acc * base > acc) by (nonlinear_arith)
                requires
                    base >= 2,
                    acc >= 1,
            ;
        }
        acc = acc * base;
        level += 1;
    }
    proof {
        assert(acc * base > u64::MAX) by (nonlinear_arith)
            requires
                acc > u64::MAX / base,
                base >= 2,
        ;
        assert(level_from(acc as nat, m as nat) == 0);
    }
    level
}

} // verus!
