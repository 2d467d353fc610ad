//! A seeded generator of the random values that key generation and encryption draw.
use crate::arith::{lemma_pow2_64, lemma_wrapping_add, lemma_wrapping_mul, lemma_wrapping_sub, pow2_u128, t64, torus};
use vstd::arithmetic::div_mod::*;
use vstd::arithmetic::power2::*;
use vstd::prelude::*;

verus! {

pub const SPLITMIX_GAMMA: u64 = 0x9e37_79b9_7f4a_7c15;

pub const SPLITMIX_MUL1: u64 = 0xbf58_476d_1ce4_e5b9;

pub const SPLITMIX_MUL2: u64 = 0x94d0_49bb_1331_11eb;

/// The SplitMix64 output function.
pub open spec fn splitmix_mix(z: u64) -> u64 {
    let z1 = t64((z ^ (z >> 30u64)) * SPLITMIX_MUL1);
    let z2 = t64((z1 ^ (z1 >> 27u64)) * SPLITMIX_MUL2);
    z2 ^ (z2 >> 31u64)
}

/// `e` lies in `[-2^b, 2^b]` once read as a signed torus element.
pub open spec fn is_small(e: u64, b: nat) -> bool {
    e <= pow2(b) || e >= torus() - pow2(b)
}

/// A SplitMix64 generator. Its output is not suited to producing secret material where an
/// adversary may predict the seed; seed it from a secure source.
#[derive(Clone, Debug)]
pub struct Generator {
    pub state: u64,
}

impl Generator {
    pub fn new(seed: u64) -> (r: Self)
        ensures
            r.state == seed,
    {
        Generator { state: seed }
    }

    /// The next 64 random bits.
    pub fn next_u64(&mut self) -> (r: u64)
        ensures
            final(self).state == t64(old(self).state + SPLITMIX_GAMMA),
            r == splitmix_mix(final(self).state),
    {
        proof {
            lemma_wrapping_add(self.state, SPLITMIX_GAMMA);
        }
        self.state = self.state.wrapping_add(SPLITMIX_GAMMA);
        let z = self.state;
        let x1 = z ^ (z >> 30u64);
        proof {
            lemma_wrapping_mul(x1, SPLITMIX_MUL1);
        }
        let z1 = x1.wrapping_mul(SPLITMIX_MUL1);
        let x2 = z1 ^ (z1 >> 27u64);
        proof {
            lemma_wrapping_mul(x2, SPLITMIX_MUL2);
        }
        let z2 = x2.wrapping_mul(SPLITMIX_MUL2);
        z2 ^ (z2 >> 31u64)
    }

    /// A uniformly random bit, as `0` or `1`.
    pub fn next_bit(&mut self) -> (r: u64)
        ensures
            final(self).state == t64(old(self).state + SPLITMIX_GAMMA),
            r == splitmix_mix(final(self).state) % 2,
            r <= 1,
    {
        let x = self.next_u64();
        x % 2
    }

    /// A noise value uniform in `[-2^log_bound, 2^log_bound]`, as a torus element.
    pub fn next_noise(&mut self, log_bound: u32) -> (r: u64)
        requires
            log_bound <= 62,
        ensures
            final(self).state == t64(old(self).state + SPLITMIX_GAMMA),
            r == t64(
                (splitmix_mix(final(self).state) as int % ((2 * pow2(log_bound as nat) + 1) as int)) - pow2(
                    log_bound as nat,
                ),
            ),
            is_small(r, log_bound as nat),
    {
        let bound = pow2_u128(log_bound);
        proof {
            lemma_pow2_64();
            lemma_pow2_strictly_increases(log_bound as nat, 64);
            lemma_pow2_strictly_increases(log_bound as nat, 63);
        }
        let width: u64 = (2 * bound + 1) as u64;
        let x = self.next_u64();
        let v = x % width;
        proof {
            lemma_wrapping_sub(v, bound as u64);
            if v >= bound {
                lemma_small_mod((v - bound) as nat, torus() as nat);
            } else {
                lemma_mod_add_multiples_vanish(v - bound, torus());
                lemma_small_mod((v - bound + torus()) as nat, torus() as nat);
            }
        }
        v.wrapping_sub(bound as u64)
    }
}

} // verus!
