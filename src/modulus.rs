//! Ciphertext moduli: the native `2^64` or a smaller power of two.
use crate::arith::{lemma_pow2_0, lemma_pow2_64, pow2_u128, torus};
use vstd::arithmetic::power2::*;
use vstd::prelude::*;

verus! {

/// A power-of-two ciphertext modulus `2^log2`; `log2 == 64` is the native modulus of `u64`.
#[derive(Clone, Copy, Debug, PartialEq, Eq, Structural)]
pub struct CiphertextModulus {
    pub log2: u32,
}

impl CiphertextModulus {
    pub open spec fn wf(self) -> bool {
        1 <= self.log2 <= 64
    }

    /// The modulus `q` as a natural number.
    pub open spec fn value(self) -> nat {
        pow2(self.log2 as nat)
    }

    pub open spec fn is_native(self) -> bool {
        self.log2 == 64
    }

    /// The native modulus `2^64`.
    pub fn new_native() -> (r: Self)
        ensures
            r.wf(),
            r.is_native(),
            r.value() == torus(),
    {
        proof {
            lemma_pow2_64();
        }
        CiphertextModulus { log2: 64 }
    }

    /// The modulus `2^log2`; `None` unless `1 <= log2 <= 64`.
    pub fn try_new_power_of_2(log2: u32) -> (r: Option<Self>)
        ensures
            r is Some <==> 1 <= log2 <= 64,
            r is Some ==> r->0.log2 == log2 && r->0.wf(),
    {
        if 1 <= log2 && log2 <= 64 {
            Some(CiphertextModulus { log2 })
        } else {
            None
        }
    }

    pub fn is_native_modulus(&self) -> (r: bool)
        ensures
            r == self.is_native(),
    {
        self.log2 == 64
    }

    /// The modulus as a `u128`.
    pub fn get(&self) -> (r: u128)
        requires
            self.wf(),
        ensures
            r as nat == self.value(),
    {
        pow2_u128(self.log2)
    }

    pub proof fn lemma_value_bounds(self)
        requires
            self.wf(),
        ensures
            2 <= self.value() <= torus(),
            self.is_native() <==> self.value() == torus(),
            !self.is_native() ==> self.value() <= 0x8000_0000_0000_0000,
    {
        lemma_pow2_64();
        lemma_pow2_unfold(1);
        lemma_pow2_0();
        if self.log2 < 64 {
            lemma_pow2_strictly_increases(self.log2 as nat, 64);
            if self.log2 < 63 {
                lemma_pow2_strictly_increases(self.log2 as nat, 63);
            }
        }
        if self.log2 > 1 {
            lemma_pow2_strictly_increases(1, self.log2 as nat);
        }
    }
}

} // verus!
