//! Encrypted booleans: encryption, and gates evaluated by bootstrapping.
//!
//! `true` is encoded as `+1/8` of the torus and `false` as `-1/8`. A binary gate adds a
//! linear combination of its inputs to an offset and bootstraps the result through the
//! accumulator whose every coefficient is `+1/8`: bootstrapping then outputs `+1/8` for a
//! phase in `(0, 1/2)` and `-1/8` for a phase in `(1/2, 1)`.
use crate::arith::{copy_range, lemma_pow2_64, lemma_t64_add, lemma_t64_bounds, t64, torus};
use crate::bootstrap::is_power_of_two;
use crate::keys::{ClientKey, ServerKey};
use crate::encryption::{decrypt_lwe_ciphertext, encrypt_lwe_ciphertext, lwe_phase};
use crate::ggsw::GgswShape;
use crate::glwe::GlweCiphertext;
use crate::lwe::{
    lwe_ciphertext_add, lwe_ciphertext_cleartext_mul_assign, lwe_ciphertext_opposite_assign,
    lwe_ciphertext_plaintext_add_assign, Cleartext, LweCiphertext, Plaintext,
};
use crate::modulus::CiphertextModulus;
use crate::random::{is_small, Generator};
use vstd::arithmetic::div_mod::*;
use vstd::arithmetic::power2::*;
use vstd::prelude::*;

verus! {

/// `1/8` of the torus.
pub const ONE_EIGHTH: u64 = 0x2000_0000_0000_0000;

/// `-1/8` of the torus.
pub const MINUS_ONE_EIGHTH: u64 = 0xe000_0000_0000_0000;

/// `1/4` of the torus.
pub const ONE_QUARTER: u64 = 0x4000_0000_0000_0000;

/// `1/2` of the torus.
pub const ONE_HALF: u64 = 0x8000_0000_0000_0000;

pub open spec fn encode_bool(b: bool) -> u64 {
    if b {
        ONE_EIGHTH
    } else {
        MINUS_ONE_EIGHTH
    }
}

/// Cryptographic parameters of encrypted booleans. Inputs of the bootstrap are encrypted
/// under the GLWE key read flat, so `lwe_dimension == glwe_dimension * polynomial_size`.
/// Noise is drawn uniformly in `[-2^log, 2^log]`.
#[derive(Clone, Copy, Debug, PartialEq, Eq, Structural)]
pub struct FheBoolParameters {
    pub lwe_dimension: usize,
    pub glwe_dimension: usize,
    pub polynomial_size: usize,
    pub lwe_noise_log: u32,
    pub glwe_noise_log: u32,
    pub pbs_base_log: u32,
    pub pbs_level: u32,
}

/// A source of boolean parameters.
pub trait BooleanParameterSet {
    fn into_boolean_parameters(self) -> FheBoolParameters;
}

impl BooleanParameterSet for FheBoolParameters {
    fn into_boolean_parameters(self) -> FheBoolParameters {
        self
    }
}

impl FheBoolParameters {
    /// The shape of the GGSW ciphertexts of the bootstrapping key.
    pub open spec fn shape(self) -> GgswShape {
        GgswShape {
            polynomial_size: self.polynomial_size,
            glwe_size: (self.glwe_dimension + 1) as usize,
            base_log: self.pbs_base_log,
            level_count: self.pbs_level,
        }
    }

    pub open spec fn wf(self) -> bool {
        &&& 1 <= self.glwe_dimension < usize::MAX
        &&& self.shape().wf()
        &&& is_power_of_two(self.polynomial_size as nat)
        &&& self.lwe_dimension == self.glwe_dimension * self.polynomial_size
        &&& self.lwe_dimension * self.shape().ggsw_len() <= usize::MAX
        &&& self.lwe_noise_log <= 62
        &&& self.glwe_noise_log <= 62
    }

    pub proof fn lemma_dimensions(self)
        requires
            self.wf(),
        ensures
            self.lwe_dimension + self.polynomial_size == self.shape().glwe_len(),
            self.shape().glwe_len() <= usize::MAX,
            self.lwe_dimension < usize::MAX,
    {
        self.shape().lemma_sizes();
        assert((self.glwe_dimension + 1) * self.polynomial_size == self.glwe_dimension * self.polynomial_size
            + self.polynomial_size) by (nonlinear_arith);
    }

    pub fn shape_exec(&self) -> (r: GgswShape)
        requires
            self.wf(),
        ensures
            r == self.shape(),
    {
        GgswShape {
            polynomial_size: self.polynomial_size,
            glwe_size: self.glwe_dimension + 1,
            base_log: self.pbs_base_log,
            level_count: self.pbs_level,
        }
    }

    /// The parameter set with `N = 128` and `k = 2`.
    pub fn tfhe_lib() -> (r: Self)
        ensures
            r.wf(),
            r == (FheBoolParameters {
                lwe_dimension: 256,
                glwe_dimension: 2,
                polynomial_size: 128,
                lwe_noise_log: 20,
                glwe_noise_log: 20,
                pbs_base_log: 10,
                pbs_level: 3,
            }),
    {
        let r = FheBoolParameters {
            lwe_dimension: 256,
            glwe_dimension: 2,
            polynomial_size: 128,
            lwe_noise_log: 20,
            glwe_noise_log: 20,
            pbs_base_log: 10,
            pbs_level: 3,
        };
        proof {
            vstd::arithmetic::power2::lemma2_to64();
            assert(pow2(7) == 128);
        }
        Self::from_static(&r)
    }

    fn from_static(params: &FheBoolParameters) -> (r: Self)
        ensures
            r == *params,
    {
        *params
    }
}

impl Default for FheBoolParameters {
    /// The parameter set with `N = 256` and `k = 1`.
    fn default() -> (r: Self)
        ensures
            r.wf(),
            r == (FheBoolParameters {
                lwe_dimension: 256,
                glwe_dimension: 1,
                polynomial_size: 256,
                lwe_noise_log: 20,
                glwe_noise_log: 20,
                pbs_base_log: 10,
                pbs_level: 3,
            }),
    {
        let r = FheBoolParameters {
            lwe_dimension: 256,
            glwe_dimension: 1,
            polynomial_size: 256,
            lwe_noise_log: 20,
            glwe_noise_log: 20,
            pbs_base_log: 10,
            pbs_level: 3,
        };
        proof {
            vstd::arithmetic::power2::lemma2_to64();
            assert(pow2(8) == 256);
        }
        Self::from_static(&r)
    }
}

/// An encrypted boolean.
#[derive(Clone, Debug)]
pub struct FheBool {
    pub ciphertext: LweCiphertext,
}

impl ClientKey {
    /// Encrypts `value` as `+1/8` or `-1/8` plus noise.
    pub fn encrypt(&self, value: bool, generator: &mut Generator) -> (r: FheBool)
        requires
            self.wf(),
        ensures
            r.ciphertext.wf(),
            r.ciphertext.ciphertext_modulus.is_native(),
            r.ciphertext.data.len() == self.parameters.lwe_dimension + 1,
            exists|e: u64|
                is_small(e, self.parameters.lwe_noise_log as nat) && lwe_phase(
                    r.ciphertext.data@,
                    self.glwe_secret_key.data@,
                ) == #[trigger] t64(encode_bool(value) + e),
    {
        let key = self.glwe_secret_key.as_lwe_secret_key();
        let plaintext = if value {
            ONE_EIGHTH
        } else {
            MINUS_ONE_EIGHTH
        };
        proof {
            self.parameters.lemma_dimensions();
        }
        let ciphertext = encrypt_lwe_ciphertext(&key, plaintext, self.parameters.lwe_noise_log, generator);
        proof {
            let e = choose|e: u64|
                is_small(e, self.parameters.lwe_noise_log as nat) && lwe_phase(ciphertext.data@, key.data@)
                    == #[trigger] t64(plaintext + e);
            assert(plaintext == encode_bool(value));
            assert(lwe_phase(ciphertext.data@, self.glwe_secret_key.data@) == t64(encode_bool(value) + e));
        }
        FheBool { ciphertext }
    }

    /// `true` when the phase lies in the upper-positive half `[0, 1/2)` of the torus.
    pub fn decrypt(&self, ct: &FheBool) -> (r: bool)
        requires
            self.wf(),
            ct.ciphertext.wf(),
            ct.ciphertext.data.len() == self.parameters.lwe_dimension + 1,
        ensures
            r == (lwe_phase(ct.ciphertext.data@, self.glwe_secret_key.data@) < ONE_HALF),
    {
        let key = self.glwe_secret_key.as_lwe_secret_key();
        let phase = decrypt_lwe_ciphertext(&key, &ct.ciphertext);
        phase < ONE_HALF
    }
}

/// The accumulator of the gates: a trivial GLWE ciphertext whose body has every
/// coefficient `+1/8`.
pub open spec fn gate_accumulator(shape: GgswShape) -> Seq<u64> {
    let masks = (shape.glwe_size - 1) * shape.polynomial_size;
    Seq::new(shape.glwe_len(), |x: int| if x < masks { 0u64 } else { ONE_EIGHTH })
}

/// `scale * (a + b)` with `offset` added to the body, on the torus.
pub open spec fn gate_input(a: Seq<u64>, b: Seq<u64>, scale: u64, offset: u64) -> Seq<u64> {
    Seq::new(
        a.len(),
        |i: int|
            if i == a.len() - 1 {
                t64(scale * (a[i] + b[i]) + offset)
            } else {
                t64(scale * (a[i] + b[i]))
            },
    )
}

impl ServerKey {
    /// The output of a gate whose linear part is `input`.
    pub open spec fn gate_output(&self, input: Seq<u64>) -> Seq<u64> {
        self.pbs_output(input, gate_accumulator(self.parameters.shape()))
    }

    fn accumulator(&self) -> (r: GlweCiphertext)
        requires
            self.wf(),
        ensures
            r.wf(),
            r.polynomial_size == self.parameters.polynomial_size,
            r.ciphertext_modulus == (CiphertextModulus { log2: 64 }),
            r.data@ == gate_accumulator(self.parameters.shape()),
    {
        let shape = self.parameters.shape_exec();
        proof {
            shape.lemma_sizes();
            assert((shape.glwe_size - 1) * shape.polynomial_size <= shape.glwe_len()) by (nonlinear_arith)
                requires
                    shape.glwe_len() == shape.glwe_size * shape.polynomial_size,
                    shape.glwe_size >= 1,
            ;
        }
        let total = shape.glwe_len_exec();
        let masks = (shape.glwe_size - 1) * shape.polynomial_size;
        let mut data: Vec<u64> = Vec::with_capacity(total);
        let mut x: usize = 0;
        while x < total
            invariant
                x <= total,
                total == shape.glwe_len(),
                masks == (shape.glwe_size - 1) * shape.polynomial_size,
                data.len() == x,
                forall|y: int| 0 <= y < x ==> #[trigger] data@[y] == (if y < masks { 0u64 } else { ONE_EIGHTH }),
            decreases total - x,
        {
            if x < masks {
                data.push(0);
            } else {
                data.push(ONE_EIGHTH);
            }
            x = x + 1;
        }
        assert(data@ =~= gate_accumulator(shape));
        proof {
            lemma_mod_multiples_basic(shape.glwe_size as int, shape.polynomial_size as int);
            vstd::arithmetic::mul::lemma_mul_is_commutative(shape.glwe_size as int, shape.polynomial_size as int);
        }
        GlweCiphertext::from_container(data, shape.polynomial_size, CiphertextModulus::new_native())
    }

    /// `scale * (a + b) + offset` (the offset on the body), with the native modulus.
    fn linear_combination(&self, a: &FheBool, b: &FheBool, scale: u64, offset: u64) -> (r: LweCiphertext)
        requires
            self.wf(),
            a.ciphertext.wf(),
            b.ciphertext.wf(),
            a.ciphertext.ciphertext_modulus.is_native(),
            b.ciphertext.ciphertext_modulus.is_native(),
            a.ciphertext.data.len() == b.ciphertext.data.len(),
        ensures
            r.wf(),
            r.ciphertext_modulus.is_native(),
            r.data@ == gate_input(a.ciphertext.data@, b.ciphertext.data@, scale, offset),
    {
        let a_ct = &a.ciphertext;
        let b_ct = &b.ciphertext;
        let mut out = LweCiphertext::new(0, a_ct.data.len(), CiphertextModulus::new_native());
        proof {
            lemma_pow2_64();
        }
        lwe_ciphertext_add(&mut out, a_ct, b_ct);
        let ghost summed = out.data@;
        lwe_ciphertext_cleartext_mul_assign(&mut out, Cleartext(scale));
        let ghost scaled = out.data@;
        lwe_ciphertext_plaintext_add_assign(&mut out, Plaintext(offset));
        proof {
            let av = a_ct.data@;
            let bv = b_ct.data@;
            let last = av.len() - 1;
            assert forall|i: int| 0 <= i < av.len() implies #[trigger] scaled[i] == t64(scale * (av[i] + bv[i])) by {
                lemma_t64_bounds(av[i] + bv[i]);
                vstd::arithmetic::div_mod::lemma_mul_mod_noop_left(av[i] + bv[i], scale as int, torus());
                vstd::arithmetic::mul::lemma_mul_is_commutative(av[i] + bv[i], scale as int);
            }
            lemma_t64_add(scale * (av[last] + bv[last]), offset as int);
            lemma_small_mod(offset as nat, torus() as nat);
            assert(out.data@ =~= gate_input(av, bv, scale, offset));
        }
        out
    }

    /// Bootstraps the linear part of a binary operation through `gate_accumulator`.
    fn gate(&self, input: &LweCiphertext) -> (r: FheBool)
        requires
            self.wf(),
            input.wf(),
            input.ciphertext_modulus.is_native(),
            input.data.len() == self.parameters.lwe_dimension + 1,
        ensures
            r.ciphertext.wf(),
            r.ciphertext.ciphertext_modulus.is_native(),
            r.ciphertext.data.len() == self.parameters.lwe_dimension + 1,
            r.ciphertext.data@ == self.gate_output(input.data@),
    {
        let acc = self.accumulator();
        proof {
            self.parameters.shape().lemma_sizes();
        }
        let ciphertext = self.programmable_bootstrap(input, &acc);
        FheBool { ciphertext }
    }

    /// `a AND b`: bootstraps `a + b - 1/8`.
    pub fn and(&self, a: &FheBool, b: &FheBool) -> (r: FheBool)
        requires
            self.wf(),
            a.ciphertext.wf(),
            b.ciphertext.wf(),
            a.ciphertext.ciphertext_modulus.is_native(),
            b.ciphertext.ciphertext_modulus.is_native(),
            a.ciphertext.data.len() == self.parameters.lwe_dimension + 1,
            b.ciphertext.data.len() == self.parameters.lwe_dimension + 1,
        ensures
            r.ciphertext.wf(),
            r.ciphertext.ciphertext_modulus.is_native(),
            r.ciphertext.data.len() == self.parameters.lwe_dimension + 1,
            r.ciphertext.data@ == self.gate_output(
                gate_input(a.ciphertext.data@, b.ciphertext.data@, 1, MINUS_ONE_EIGHTH),
            ),
    {
        let input = self.linear_combination(a, b, 1, MINUS_ONE_EIGHTH);
        self.gate(&input)
    }

    /// `a OR b`: bootstraps `a + b + 1/8`.
    pub fn or(&self, a: &FheBool, b: &FheBool) -> (r: FheBool)
        requires
            self.wf(),
            a.ciphertext.wf(),
            b.ciphertext.wf(),
            a.ciphertext.ciphertext_modulus.is_native(),
            b.ciphertext.ciphertext_modulus.is_native(),
            a.ciphertext.data.len() == self.parameters.lwe_dimension + 1,
            b.ciphertext.data.len() == self.parameters.lwe_dimension + 1,
        ensures
            r.ciphertext.wf(),
            r.ciphertext.ciphertext_modulus.is_native(),
            r.ciphertext.data.len() == self.parameters.lwe_dimension + 1,
            r.ciphertext.data@ == self.gate_output(
                gate_input(a.ciphertext.data@, b.ciphertext.data@, 1, ONE_EIGHTH),
            ),
    {
        let input = self.linear_combination(a, b, 1, ONE_EIGHTH);
        self.gate(&input)
    }

    /// `a XOR b`: bootstraps `2 * (a + b) + 1/4`.
    pub fn xor(&self, a: &FheBool, b: &FheBool) -> (r: FheBool)
        requires
            self.wf(),
            a.ciphertext.wf(),
            b.ciphertext.wf(),
            a.ciphertext.ciphertext_modulus.is_native(),
            b.ciphertext.ciphertext_modulus.is_native(),
            a.ciphertext.data.len() == self.parameters.lwe_dimension + 1,
            b.ciphertext.data.len() == self.parameters.lwe_dimension + 1,
        ensures
            r.ciphertext.wf(),
            r.ciphertext.ciphertext_modulus.is_native(),
            r.ciphertext.data.len() == self.parameters.lwe_dimension + 1,
            r.ciphertext.data@ == self.gate_output(
                gate_input(a.ciphertext.data@, b.ciphertext.data@, 2, ONE_QUARTER),
            ),
    {
        let input = self.linear_combination(a, b, 2, ONE_QUARTER);
        self.gate(&input)
    }

    /// `NOT a`: the negated ciphertext, without bootstrapping.
    pub fn not(&self, a: &FheBool) -> (r: FheBool)
        requires
            a.ciphertext.wf(),
            a.ciphertext.ciphertext_modulus.is_native(),
        ensures
            r.ciphertext.wf(),
            r.ciphertext.ciphertext_modulus.is_native(),
            r.ciphertext.data.len() == a.ciphertext.data.len(),
            forall|i: int|
                0 <= i < a.ciphertext.data.len() ==> #[trigger] r.ciphertext.data@[i] == t64(
                    -a.ciphertext.data@[i],
                ),
    {
        let mut ciphertext = LweCiphertext {
            data: copy_range(&a.ciphertext.data, 0, a.ciphertext.data.len()),
            ciphertext_modulus: a.ciphertext.ciphertext_modulus,
        };
        assert(ciphertext.data@ =~= a.ciphertext.data@);
        lwe_ciphertext_opposite_assign(&mut ciphertext);
        FheBool { ciphertext }
    }
}

} // verus!
