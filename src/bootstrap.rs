//! The bootstrapping key and the programmable bootstrap: blind rotation of a lookup-table
//! accumulator driven by an LWE ciphertext, then sample extraction.
use crate::arith::{copy_range, lemma_chunk_bounds, lemma_pow2_0, lemma_pow2_64, pow2_u128, torus};
use crate::decomposition::{
    closest_representable, closest_representable_exec, lemma_decompose_zero,
};
use crate::ggsw::{
    cmux_at, cmux_result, digit_poly, trivial_ggsw, external_product_partial, row_contribution,
    GgswCiphertext, GgswShape,
};
use crate::glwe::{
    extract_lwe_sample_from_glwe_ciphertext, glwe_monomial_rotate, glwe_rotate, lemma_flat_size,
    sample_extract, GlweCiphertext, };
use crate::lwe::LweCiphertext;
use crate::modulus::CiphertextModulus;
use crate::polynomial::{negacyclic_sum, poly_add, poly_mul, poly_sub, poly_zero};
use vstd::arithmetic::div_mod::*;
use vstd::arithmetic::power2::*;
use vstd::prelude::*;

verus! {

/// `n` is `2^e` for some `e <= 30`.
pub open spec fn is_power_of_two(n: nat) -> bool {
    exists|e: nat| e <= 30 && #[trigger] pow2(e) == n
}

/// The base-2 logarithm of `n`, rounded down.
pub open spec fn ilog2(n: nat) -> nat
    decreases n,
{
    if n <= 1 {
        0
    } else {
        1 + ilog2(n / 2)
    }
}

pub proof fn lemma_ilog2_pow2(e: nat)
    ensures
        ilog2(pow2(e)) == e,
    decreases e,
{
    lemma_pow2_pos(e);
    if e == 0 {
        lemma_pow2_0();
    } else {
        lemma_pow2_unfold(e);
        lemma_pow2_pos((e - 1) as nat);
        lemma_ilog2_pow2((e - 1) as nat);
        assert(pow2(e) / 2 == pow2((e - 1) as nat));
    }
}

/// `x` mapped from the torus to `[0, 2N)` with `N = 2^log_n`, rounding to nearest:
/// `round(x * 2N / 2^64) mod 2N`.
pub open spec fn modulus_switch(x: u64, log_n: nat) -> nat {
    let s = (63 - log_n) as nat;
    (((x + pow2((s - 1) as nat)) / (pow2(s) as int)) % (pow2(log_n + 1) as int)) as nat
}

/// The exponent `e` with `2^e == n`.
pub fn log2_exact(n: usize) -> (r: u32)
    requires
        is_power_of_two(n as nat),
    ensures
        r <= 30,
        pow2(r as nat) == n,
{
    let ghost w = choose|e: nat| e <= 30 && #[trigger] pow2(e) == n;
    let mut e: u32 = 0;
    while pow2_u128(e) != n as u128
        invariant
            e <= w <= 30,
            pow2(w) == n,
        decreases w - e,
    {
        proof {
            if e == w {
                assert(false);
            }
        }
        e = e + 1;
    }
    e
}

/// `round(x * 2N / 2^64) mod 2N`: the rotation that the torus element `x` stands for.
pub fn pbs_modulus_switch(x: u64, polynomial_size: usize) -> (r: usize)
    requires
        is_power_of_two(polynomial_size as nat),
    ensures
        r < 2 * polynomial_size,
        r == modulus_switch(x, ilog2(polynomial_size as nat)),
{
    let log_n = log2_exact(polynomial_size);
    proof {
        lemma_ilog2_pow2(log_n as nat);
    }
    let s: u32 = 63 - log_n;
    let half = pow2_u128(s - 1);
    let unit = pow2_u128(s);
    let span = pow2_u128(log_n + 1);
    proof {
        lemma_pow2_64();
        lemma_pow2_pos(s as nat);
        lemma_pow2_pos((log_n + 1) as nat);
        lemma_pow2_strictly_increases((s - 1) as nat, 64);
        lemma_pow2_unfold((log_n + 1) as nat);
        lemma_pow2_strictly_increases((log_n + 1) as nat, 32);
        vstd::arithmetic::power2::lemma2_to64();
    }
    let v: u128 = ((x as u128 + half) / unit) % span;
    proof {
        lemma_mod_bound(((x + half) / unit as int), span as int);
        assert(modulus_switch(x, log_n as nat) == v);
    }
    v as usize
}

/// GGSW ciphertext `i` of the bootstrapping key data `bsk`.
pub open spec fn bsk_ggsw(bsk: Seq<u64>, shape: GgswShape, i: int) -> Seq<u64> {
    bsk.subrange(i * shape.ggsw_len(), i * shape.ggsw_len() + shape.ggsw_len())
}

/// One CMUX of the blind rotation: `acc` or `acc * X^ms(a)` as `g` encrypts 0 or 1.
pub open spec fn blind_rotation_step(acc: Seq<u64>, a: u64, g: Seq<u64>, shape: GgswShape, log_n: nat) -> Seq<u64> {
    cmux_result(
        acc,
        glwe_rotate(acc, shape.polynomial_size as nat, modulus_switch(a, log_n) as int),
        g,
        shape,
    )
}

/// The accumulator after the CMUXes of the first `i` mask coefficients, none skipped.
pub open spec fn blind_rotation_sweep(
    acc: Seq<u64>,
    lwe: Seq<u64>,
    bsk: Seq<u64>,
    shape: GgswShape,
    log_n: nat,
    i: int,
) -> Seq<u64>
    decreases i,
{
    if i <= 0 {
        acc
    } else {
        blind_rotation_step(
            blind_rotation_sweep(acc, lwe, bsk, shape, log_n, i - 1),
            lwe[i - 1],
            bsk_ggsw(bsk, shape, i - 1),
            shape,
            log_n,
        )
    }
}

/// The accumulator `lut` blindly rotated by the LWE ciphertext `lwe = (a_0, .., a_{n-1}, b)`:
/// divided by `X^ms(b)`, then one CMUX per mask coefficient with the key's GGSW of the same
/// index, then, for a non-native modulus `2^m`, every coefficient rounded to its top `m` bits.
pub open spec fn blind_rotate_result(
    lut: Seq<u64>,
    lwe: Seq<u64>,
    bsk: Seq<u64>,
    shape: GgswShape,
    log_n: nat,
    modulus: CiphertextModulus,
) -> Seq<u64> {
    let n = lwe.len() - 1;
    let acc0 = glwe_rotate(lut, shape.polynomial_size as nat, -(modulus_switch(lwe[n], log_n) as int));
    let swept = blind_rotation_sweep(acc0, lwe, bsk, shape, log_n, n);
    if modulus.is_native() {
        swept
    } else {
        Seq::new(swept.len(), |x: int| closest_representable(swept[x], modulus.log2 as nat, 1))
    }
}

/// The bootstrapping key: one GGSW ciphertext per input LWE secret key coefficient, in order,
/// stored back to back in one flat buffer. Blind rotation multiplies against its polynomials
/// exactly, by negacyclic convolution over `Z_{2^64}`, so they are kept as coefficients.
#[derive(Clone, Debug)]
pub struct FourierLweBootstrapKey {
    pub data: Vec<u64>,
    pub input_lwe_dimension: usize,
    pub shape: GgswShape,
}

impl FourierLweBootstrapKey {
    pub open spec fn wf(&self) -> bool {
        &&& self.shape.wf()
        &&& is_power_of_two(self.shape.polynomial_size as nat)
        &&& self.data.len() == self.input_lwe_dimension * self.shape.ggsw_len()
    }

    /// Wraps `data`; its length must be `n * N * l * K * K`.
    pub fn from_container(
        data: Vec<u64>,
        input_lwe_dimension: usize,
        glwe_size: usize,
        polynomial_size: usize,
        decomposition_base_log: u32,
        decomposition_level_count: u32,
    ) -> (r: Self)
        requires
            ({
                let shape = GgswShape {
                    polynomial_size,
                    glwe_size,
                    base_log: decomposition_base_log,
                    level_count: decomposition_level_count,
                };
                shape.wf() && data.len() == input_lwe_dimension * shape.ggsw_len()
            }),
            is_power_of_two(polynomial_size as nat),
        ensures
            r.wf(),
            r.data == data,
            r.input_lwe_dimension == input_lwe_dimension,
            r.shape == (GgswShape {
                polynomial_size,
                glwe_size,
                base_log: decomposition_base_log,
                level_count: decomposition_level_count,
            }),
    {
        FourierLweBootstrapKey {
            data,
            input_lwe_dimension,
            shape: GgswShape {
                polynomial_size,
                glwe_size,
                base_log: decomposition_base_log,
                level_count: decomposition_level_count,
            },
        }
    }

    /// A key of the given dimensions with every coefficient zero.
    pub fn new(
        input_lwe_dimension: usize,
        glwe_size: usize,
        polynomial_size: usize,
        decomposition_base_log: u32,
        decomposition_level_count: u32,
    ) -> (r: Self)
        requires
            ({
                let shape = GgswShape {
                    polynomial_size,
                    glwe_size,
                    base_log: decomposition_base_log,
                    level_count: decomposition_level_count,
                };
                shape.wf() && input_lwe_dimension * shape.ggsw_len() <= usize::MAX
            }),
            is_power_of_two(polynomial_size as nat),
        ensures
            r.wf(),
            r.input_lwe_dimension == input_lwe_dimension,
            r.data@ == Seq::new(r.data.len() as nat, |i: int| 0u64),
            r.shape == (GgswShape {
                polynomial_size,
                glwe_size,
                base_log: decomposition_base_log,
                level_count: decomposition_level_count,
            }),
    {
        let shape = GgswShape {
            polynomial_size,
            glwe_size,
            base_log: decomposition_base_log,
            level_count: decomposition_level_count,
        };
        proof {
            shape.lemma_sizes();
        }
        let total = input_lwe_dimension * shape.ggsw_len_exec();
        let mut data: Vec<u64> = Vec::with_capacity(total);
        let mut i: usize = 0;
        while i < total
            invariant
                i <= total,
                data@ == Seq::new(i as nat, |j: int| 0u64),
            decreases total - i,
        {
            data.push(0);
            i = i + 1;
            assert(data@ =~= Seq::new(i as nat, |j: int| 0u64));
        }
        FourierLweBootstrapKey { data, input_lwe_dimension, shape }
    }

    pub fn input_lwe_dimension(&self) -> (r: usize)
        ensures
            r == self.input_lwe_dimension,
    {
        self.input_lwe_dimension
    }

    pub fn polynomial_size(&self) -> (r: usize)
        ensures
            r == self.shape.polynomial_size,
    {
        self.shape.polynomial_size
    }

    pub fn glwe_size(&self) -> (r: usize)
        ensures
            r == self.shape.glwe_size,
    {
        self.shape.glwe_size
    }

    pub fn decomposition_base_log(&self) -> (r: u32)
        ensures
            r == self.shape.base_log,
    {
        self.shape.base_log
    }

    pub fn decomposition_level_count(&self) -> (r: u32)
        ensures
            r == self.shape.level_count,
    {
        self.shape.level_count
    }

    /// The dimension `(K - 1) * N` of the LWE ciphertexts that bootstrapping outputs.
    pub fn output_lwe_dimension(&self) -> (r: usize)
        requires
            self.wf(),
        ensures
            r == (self.shape.glwe_size - 1) * self.shape.polynomial_size,
    {
        proof {
            self.shape.lemma_sizes();
            assert((self.shape.glwe_size - 1) * self.shape.polynomial_size <= self.shape.glwe_size
                * self.shape.polynomial_size) by (nonlinear_arith);
        }
        (self.shape.glwe_size - 1) * self.shape.polynomial_size
    }

    /// The flat buffer of the key.
    pub fn data(self) -> (r: Vec<u64>)
        ensures
            r == self.data,
    {
        self.data
    }

    /// The GGSW ciphertexts of the key, one per input LWE secret key coefficient, in order.
    pub fn into_ggsw_iter(self) -> (r: Vec<GgswCiphertext>)
        requires
            self.wf(),
        ensures
            r.len() == self.input_lwe_dimension,
            forall|i: int|
                0 <= i < r.len() ==> (#[trigger] r[i]).wf() && r[i].shape == self.shape && r[i].data@
                    == bsk_ggsw(self.data@, self.shape, i),
    {
        let len = self.shape.ggsw_len_exec();
        proof {
            self.shape.lemma_sizes();
        }
        let mut r: Vec<GgswCiphertext> = Vec::with_capacity(self.input_lwe_dimension);
        let mut i: usize = 0;
        while i < self.input_lwe_dimension
            invariant
                self.wf(),
                len == self.shape.ggsw_len(),
                i <= self.input_lwe_dimension,
                r.len() == i,
                forall|j: int|
                    0 <= j < i ==> (#[trigger] r[j]).wf() && r[j].shape == self.shape && r[j].data@
                        == bsk_ggsw(self.data@, self.shape, j),
            decreases self.input_lwe_dimension - i,
        {
            proof {
                self.shape.lemma_sizes();
                lemma_chunk_bounds(i as int, self.input_lwe_dimension as int, len as int);
                vstd::arithmetic::mul::lemma_mul_is_commutative(self.input_lwe_dimension as int, len as int);
            }
            let piece = copy_range(&self.data, i * len, i * len + len);
            r.push(GgswCiphertext { data: piece, shape: self.shape });
            i = i + 1;
        }
        r
    }

    /// Blindly rotates the accumulator `lut` by the LWE ciphertext `lwe` (mask then body).
    /// Mask coefficients that are zero are skipped: their CMUX leaves the accumulator as it is.
    pub fn blind_rotate_assign(&self, lut: &mut GlweCiphertext, lwe: &[u64])
        requires
            self.wf(),
            old(lut).wf(),
            old(lut).polynomial_size == self.shape.polynomial_size,
            old(lut).data.len() == self.shape.glwe_len(),
            lwe.len() == self.input_lwe_dimension + 1,
        ensures
            final(lut).wf(),
            final(lut).data.len() == old(lut).data.len(),
            final(lut).polynomial_size == old(lut).polynomial_size,
            final(lut).ciphertext_modulus == old(lut).ciphertext_modulus,
            final(lut).data@ == blind_rotate_result(
                old(lut).data@,
                lwe@,
                self.data@,
                self.shape,
                ilog2(self.shape.polynomial_size as nat),
                old(lut).ciphertext_modulus,
            ),
    {
        let shape = self.shape;
        let n = shape.polynomial_size;
        let log_n = log2_exact(n);
        proof {
            lemma_ilog2_pow2(log_n as nat);
        }
        let dim = self.input_lwe_dimension;
        let len = shape.ggsw_len_exec();
        proof {
            shape.lemma_sizes();
            vstd::arithmetic::mul::lemma_mul_is_commutative(shape.glwe_size as int, n as int);
            lemma_mod_multiples_basic(shape.glwe_size as int, n as int);
            lemma_flat_size(lut.data.len() as nat, n as nat);
        }
        let body_rotation = pbs_modulus_switch(lwe[dim], n);
        let mut acc = glwe_monomial_rotate(&lut.data, n, body_rotation, true);
        let ghost acc0 = acc@;
        let mut i: usize = 0;
        while i < dim
            invariant
                self.wf(),
                shape == self.shape,
                n == shape.polynomial_size,
                pow2(log_n as nat) == n,
                ilog2(n as nat) == log_n,
                log_n <= 30,
                dim == self.input_lwe_dimension,
                lwe.len() == dim + 1,
                len == shape.ggsw_len(),
                i <= dim,
                acc.len() == shape.glwe_len(),
                acc@ == blind_rotation_sweep(acc0, lwe@, self.data@, shape, log_n as nat, i as int),
            decreases dim - i,
        {
            let a = lwe[i];
            proof {
                shape.lemma_sizes();
                lemma_chunk_bounds(i as int, dim as int, len as int);
                vstd::arithmetic::mul::lemma_mul_is_commutative(dim as int, len as int);
                lemma_mod_multiples_basic(shape.glwe_size as int, n as int);
                vstd::arithmetic::mul::lemma_mul_is_commutative(shape.glwe_size as int, n as int);
                lemma_flat_size(acc.len() as nat, n as nat);
            }
            if a != 0 {
                let degree = pbs_modulus_switch(a, n);
                let rotated = glwe_monomial_rotate(&acc, n, degree, false);
                cmux_at(&mut acc, &rotated, &self.data, i * len, shape);
            } else {
                proof {
                    lemma_zero_mask_coefficient_is_noop(acc@, bsk_ggsw(self.data@, shape, i as int), shape, log_n as nat);
                }
            }
            i = i + 1;
        }
        let m = lut.ciphertext_modulus;
        if !m.is_native_modulus() {
            let total = acc.len();
            let ghost swept = acc@;
            let mut x: usize = 0;
            while x < total
                invariant
                    total == acc.len(),
                    swept.len() == total,
                    m.wf(),
                    !m.is_native(),
                    x <= total,
                    forall|y: int| 0 <= y < x ==> #[trigger] acc@[y] == closest_representable(swept[y], m.log2 as nat, 1),
                    forall|y: int| x <= y < total ==> #[trigger] acc@[y] == swept[y],
                decreases total - x,
            {
                let v = closest_representable_exec(acc[x], m.log2, 1);
                acc.set(x, v);
                x = x + 1;
            }
            assert(acc@ =~= Seq::new(swept.len(), |y: int| closest_representable(swept[y], m.log2 as nat, 1)));
        }
        lut.data = acc;
    }

    /// Bootstraps `lwe_in` through the lookup-table accumulator `accumulator`: blind rotation
    /// of a copy of the accumulator, then extraction of its constant coefficient into `lwe_out`.
    pub fn bootstrap(&self, lwe_out: &mut LweCiphertext, lwe_in: &LweCiphertext, accumulator: &GlweCiphertext)
        requires
            self.wf(),
            accumulator.wf(),
            old(lwe_out).wf(),
            accumulator.polynomial_size == self.shape.polynomial_size,
            accumulator.data.len() == self.shape.glwe_len(),
            lwe_in.data.len() == self.input_lwe_dimension + 1,
            old(lwe_out).data.len() == (self.shape.glwe_size - 1) * self.shape.polynomial_size + 1,
            old(lwe_out).ciphertext_modulus == lwe_in.ciphertext_modulus,
            lwe_in.ciphertext_modulus == accumulator.ciphertext_modulus,
        ensures
            final(lwe_out).wf(),
            final(lwe_out).ciphertext_modulus == old(lwe_out).ciphertext_modulus,
            final(lwe_out).data.len() == old(lwe_out).data.len(),
            final(lwe_out).data@ == bootstrap_result(
                lwe_in.data@,
                accumulator.data@,
                self.data@,
                self.shape,
                ilog2(self.shape.polynomial_size as nat),
                accumulator.ciphertext_modulus,
            ),
    {
        let mut local = GlweCiphertext {
            data: copy_range(&accumulator.data, 0, accumulator.data.len()),
            polynomial_size: accumulator.polynomial_size,
            ciphertext_modulus: accumulator.ciphertext_modulus,
        };
        assert(local.data@ =~= accumulator.data@);
        self.blind_rotate_assign(&mut local, lwe_in.data.as_slice());
        proof {
            self.shape.lemma_sizes();
            lemma_div_multiples_vanish(self.shape.glwe_size as int, self.shape.polynomial_size as int);
            vstd::arithmetic::mul::lemma_mul_is_commutative(self.shape.glwe_size as int, self.shape.polynomial_size as int);
        }
        extract_lwe_sample_from_glwe_ciphertext(&local, lwe_out);
    }
}

/// The output of bootstrapping `lwe` through the accumulator `lut`.
pub open spec fn bootstrap_result(
    lwe: Seq<u64>,
    lut: Seq<u64>,
    bsk: Seq<u64>,
    shape: GgswShape,
    log_n: nat,
    modulus: CiphertextModulus,
) -> Seq<u64> {
    sample_extract(blind_rotate_result(lut, lwe, bsk, shape, log_n, modulus), shape.polynomial_size as nat)
}

/// A CMUX driven by a zero mask coefficient leaves the accumulator unchanged: the rotation
/// is by `X^0 = 1`, so the CMUX adds the external product of the zero ciphertext, which is
/// zero. Skipping it gives the same accumulator as performing it.
pub proof fn lemma_zero_mask_coefficient_is_noop(acc: Seq<u64>, g: Seq<u64>, shape: GgswShape, log_n: nat)
    requires
        shape.wf(),
        log_n <= 30,
        pow2(log_n) == shape.polynomial_size,
        acc.len() == shape.glwe_len(),
        g.len() == shape.ggsw_len(),
    ensures
        blind_rotation_step(acc, 0, g, shape, log_n) == acc,
{
    let n = shape.polynomial_size as int;
    shape.lemma_sizes();
    vstd::arithmetic::mul::lemma_mul_is_commutative(shape.glwe_size as int, n);
    lemma_mod_multiples_basic(shape.glwe_size as int, n);
    lemma_flat_size(acc.len(), n as nat);
    // The modulus switch of zero is zero.
    let s = (63 - log_n) as nat;
    lemma_pow2_pos(s);
    lemma_pow2_pos(log_n + 1);
    lemma_pow2_strictly_increases((s - 1) as nat, s);
    lemma_basic_div(pow2((s - 1) as nat) as int, pow2(s) as int);
    lemma_small_mod(0, pow2(log_n + 1));
    assert(modulus_switch(0, log_n) == 0);
    // Rotating by X^0 is the identity.
    let rot = glwe_rotate(acc, n as nat, 0);
    assert forall|x: int| 0 <= x < acc.len() implies #[trigger] rot[x] == acc[x] by {
        lemma_fundamental_div_mod(x, n);
        lemma_mod_bound(x, n);
        lemma_div_pos_is_pos(x, n);
        let j = x / n;
        assert(j < shape.glwe_size) by {
            if j >= shape.glwe_size {
                assert(n * j >= n * shape.glwe_size) by (nonlinear_arith)
                    requires
                        j >= shape.glwe_size,
                        n > 0,
                ;
                vstd::arithmetic::mul::lemma_mul_is_commutative(n, shape.glwe_size as int);
            }
        }
        lemma_chunk_bounds(j, shape.glwe_size as int, n);
        lemma_small_mod((x % n) as nat, (2 * n) as nat);
        vstd::arithmetic::mul::lemma_mul_is_commutative(n, j);
    }
    assert(rot =~= acc);
    // The difference is zero, and so is its external product.
    assert(poly_sub(acc, acc) =~= poly_zero(acc.len())) by {
        assert forall|x: int| 0 <= x < acc.len() implies #[trigger] poly_sub(acc, acc)[x] == 0u64 by {
            lemma_small_mod(0, torus() as nat);
        }
    }
    lemma_external_product_of_zero(shape, shape.rows() as int, g);
    // Adding zero changes nothing.
    assert forall|x: int| 0 <= x < acc.len() implies #[trigger] poly_add(acc, poly_zero(acc.len()))[x] == acc[x] by {
        lemma_small_mod(acc[x] as nat, torus() as nat);
    }
    assert(poly_add(acc, poly_zero(acc.len())) =~= acc);
}

proof fn lemma_sweep_of_zero_mask(
    acc: Seq<u64>,
    lwe: Seq<u64>,
    bsk: Seq<u64>,
    shape: GgswShape,
    log_n: nat,
    i: int,
)
    requires
        shape.wf(),
        log_n <= 30,
        pow2(log_n) == shape.polynomial_size,
        acc.len() == shape.glwe_len(),
        0 <= i < lwe.len(),
        forall|j: int| 0 <= j < lwe.len() - 1 ==> lwe[j] == 0,
        bsk.len() == (lwe.len() - 1) * shape.ggsw_len(),
    ensures
        blind_rotation_sweep(acc, lwe, bsk, shape, log_n, i) == acc,
    decreases i,
{
    if i > 0 {
        lemma_sweep_of_zero_mask(acc, lwe, bsk, shape, log_n, i - 1);
        shape.lemma_sizes();
        lemma_chunk_bounds(i - 1, lwe.len() - 1, shape.ggsw_len() as int);
        lemma_zero_mask_coefficient_is_noop(acc, bsk_ggsw(bsk, shape, i - 1), shape, log_n);
    }
}

/// Blind rotation of an LWE ciphertext whose mask is zero (a trivial, noiseless encryption
/// of its body) divides the accumulator by `X^ms(b)` and nothing more, whatever the key:
/// every CMUX is driven by a zero coefficient. With the native modulus, bootstrapping such
/// a ciphertext thus reads the lookup table at the rotation of its body.
pub proof fn lemma_trivial_input_rotates_by_body(
    lut: Seq<u64>,
    lwe: Seq<u64>,
    bsk: Seq<u64>,
    shape: GgswShape,
    log_n: nat,
)
    requires
        shape.wf(),
        log_n <= 30,
        pow2(log_n) == shape.polynomial_size,
        lut.len() == shape.glwe_len(),
        lwe.len() >= 1,
        forall|j: int| 0 <= j < lwe.len() - 1 ==> lwe[j] == 0,
        bsk.len() == (lwe.len() - 1) * shape.ggsw_len(),
    ensures
        blind_rotate_result(lut, lwe, bsk, shape, log_n, CiphertextModulus { log2: 64 }) == glwe_rotate(
            lut,
            shape.polynomial_size as nat,
            -(modulus_switch(lwe[lwe.len() - 1], log_n) as int),
        ),
{
    let acc0 = glwe_rotate(lut, shape.polynomial_size as nat, -(modulus_switch(lwe[lwe.len() - 1], log_n) as int));
    lemma_sweep_of_zero_mask(acc0, lwe, bsk, shape, log_n, lwe.len() - 1);
}

proof fn lemma_poly_mul_zero(a: Seq<u64>, b: Seq<u64>)
    requires
        a == poly_zero(a.len()),
    ensures
        poly_mul(a, b) == poly_zero(a.len()),
{
    assert forall|j: int| 0 <= j < a.len() implies #[trigger] poly_mul(a, b)[j] == 0u64 by {
        lemma_negacyclic_sum_zero(a, b, j, a.len() as int);
        lemma_small_mod(0, torus() as nat);
    }
    assert(poly_mul(a, b) =~= poly_zero(a.len()));
}

proof fn lemma_negacyclic_sum_zero(a: Seq<u64>, b: Seq<u64>, j: int, k: int)
    requires
        a == poly_zero(a.len()),
        k <= a.len(),
    ensures
        negacyclic_sum(a, b, j, k) == 0,
    decreases k,
{
    if k > 0 {
        lemma_negacyclic_sum_zero(a, b, j, k - 1);
        assert(a[k - 1] == 0);
    }
}

proof fn lemma_external_product_of_zero(shape: GgswShape, r: int, g: Seq<u64>)
    requires
        shape.wf(),
        r <= shape.rows(),
    ensures
        external_product_partial(poly_zero(shape.glwe_len()), g, shape, r) == poly_zero(shape.glwe_len()),
    decreases r,
{
    let z = poly_zero(shape.glwe_len());
    let n = shape.polynomial_size as int;
    let k = shape.glwe_size as int;
    if r > 0 {
        lemma_external_product_of_zero(shape, r - 1, g);
        shape.lemma_sizes();
        let d = digit_poly(z, shape, r - 1);
        assert forall|x: int| 0 <= x < n implies #[trigger] d[x] == 0u64 by {
            lemma_fundamental_div_mod(r - 1, k);
            lemma_div_pos_is_pos(r - 1, k);
            lemma_mod_bound(r - 1, k);
            lemma_chunk_bounds((r - 1) % k, k, n);
            vstd::arithmetic::mul::lemma_mul_is_commutative(k, shape.level_count as int);
            assert((r - 1) / k < shape.level_count) by {
                if (r - 1) / k >= shape.level_count {
                    assert(k * ((r - 1) / k) >= k * shape.level_count) by (nonlinear_arith)
                        requires
                            (r - 1) / k >= shape.level_count,
                            k > 0,
                    ;
                    lemma_mod_bound(r - 1, k);
                }
            }
            lemma_decompose_zero(shape.base_log as nat, shape.level_count as nat, ((r - 1) / k) as nat);
        }
        assert(d =~= poly_zero(n as nat));
        let rc = row_contribution(z, g, shape, r - 1);
        assert forall|x: int| 0 <= x < rc.len() implies #[trigger] rc[x] == 0u64 by {
            lemma_poly_mul_zero(d, crate::ggsw::ggsw_poly(g, shape, r - 1, x / n));
            lemma_mod_bound(x, n);
        }
        let sum = poly_add(z, rc);
        assert forall|x: int| 0 <= x < sum.len() implies #[trigger] sum[x] == 0u64 by {
            lemma_small_mod(0, torus() as nat);
        }
        assert(sum =~= z);
    }
}

proof fn lemma_negacyclic_sum_zero_right(a: Seq<u64>, b: Seq<u64>, j: int, k: int)
    requires
        b == poly_zero(a.len()),
        0 <= j < a.len(),
        k <= a.len(),
    ensures
        negacyclic_sum(a, b, j, k) == 0,
    decreases k,
{
    if k > 0 {
        lemma_negacyclic_sum_zero_right(a, b, j, k - 1);
        if k - 1 <= j {
            assert(b[j - (k - 1)] == 0);
        } else {
            assert(b[j - (k - 1) + a.len()] == 0);
        }
    }
}

proof fn lemma_external_product_by_zero(ct: Seq<u64>, shape: GgswShape, r: int)
    requires
        shape.wf(),
        r <= shape.rows(),
    ensures
        external_product_partial(ct, poly_zero(shape.ggsw_len()), shape, r) == poly_zero(shape.glwe_len()),
    decreases r,
{
    let z = poly_zero(shape.glwe_len());
    let g = poly_zero(shape.ggsw_len());
    let n = shape.polynomial_size as int;
    if r > 0 {
        lemma_external_product_by_zero(ct, shape, r - 1);
        shape.lemma_sizes();
        let rc = row_contribution(ct, g, shape, r - 1);
        assert forall|x: int| 0 <= x < rc.len() implies #[trigger] rc[x] == 0u64 by {
            let c = x / n;
            lemma_fundamental_div_mod(x, n);
            lemma_mod_bound(x, n);
            lemma_div_pos_is_pos(x, n);
            assert(c < shape.glwe_size) by {
                if c >= shape.glwe_size {
                    assert(n * c >= n * shape.glwe_size) by (nonlinear_arith)
                        requires
                            c >= shape.glwe_size,
                            n > 0,
                    ;
                    vstd::arithmetic::mul::lemma_mul_is_commutative(n, shape.glwe_size as int);
                }
            }
            shape.lemma_poly_bounds(r - 1, c);
            let row = crate::ggsw::ggsw_poly(g, shape, r - 1, c);
            assert(row =~= poly_zero(n as nat));
            let d = digit_poly(ct, shape, r - 1);
            assert forall|j: int| 0 <= j < n implies #[trigger] poly_mul(d, row)[j] == 0u64 by {
                lemma_negacyclic_sum_zero_right(d, row, j, n);
                lemma_small_mod(0, torus() as nat);
            }
        }
        let sum = poly_add(z, rc);
        assert forall|x: int| 0 <= x < sum.len() implies #[trigger] sum[x] == 0u64 by {
            lemma_small_mod(0, torus() as nat);
        }
        assert(sum =~= z);
    }
}

/// A CMUX through the GGSW ciphertext of the bit 0 with no mask and no noise (every
/// coefficient zero) returns its first input exactly: the external product by zero is zero.
pub proof fn lemma_cmux_zero_selector_keeps_first(ct0: Seq<u64>, ct1: Seq<u64>, shape: GgswShape)
    requires
        shape.wf(),
        ct0.len() == shape.glwe_len(),
        ct1.len() == shape.glwe_len(),
    ensures
        cmux_result(ct0, ct1, trivial_ggsw(0, shape), shape) == ct0,
{
    assert forall|x: int| 0 <= x < shape.ggsw_len() implies #[trigger] trivial_ggsw(0, shape)[x] == 0u64 by {
        lemma_small_mod(0, torus() as nat);
    }
    assert(trivial_ggsw(0, shape) =~= poly_zero(shape.ggsw_len()));
    lemma_external_product_by_zero(poly_sub(ct1, ct0), shape, shape.rows() as int);
    assert forall|x: int| 0 <= x < ct0.len() implies #[trigger] poly_add(ct0, poly_zero(ct0.len()))[x] == ct0[x] by {
        lemma_small_mod(ct0[x] as nat, torus() as nat);
    }
    assert(poly_add(ct0, poly_zero(ct0.len())) =~= ct0);
}

} // verus!
