//! Secret keys, LWE encryption and decryption, and generation of the bootstrapping key.
use crate::arith::{copy_range, lemma_chunk_bounds, lemma_t64_add, lemma_t64_bounds, lemma_wrapping_add, lemma_wrapping_mul, lemma_wrapping_sub, t64, torus};
use crate::bootstrap::{bsk_ggsw, is_power_of_two, FourierLweBootstrapKey};
use crate::ggsw::GgswShape;
use crate::glwe::lemma_flat_size;
use crate::lwe::LweCiphertext;
use crate::modulus::CiphertextModulus;
use crate::glwe::poly_at;
use crate::polynomial::{poly_add, poly_mul, poly_sub, poly_zero, polynomial_wrapping_add_assign, polynomial_wrapping_mul};
use crate::random::{is_small, Generator};
use vstd::arithmetic::div_mod::*;
use vstd::arithmetic::power2::*;
use vstd::prelude::*;

verus! {

/// Every coefficient is 0 or 1.
pub open spec fn is_binary(s: Seq<u64>) -> bool {
    forall|i: int| 0 <= i < s.len() ==> #[trigger] s[i] <= 1
}

/// `sum_{i < k} a_i * s_i` over the integers.
pub open spec fn dot(a: Seq<u64>, s: Seq<u64>, k: int) -> int
    decreases k,
{
    if k <= 0 {
        0
    } else {
        dot(a, s, k - 1) + a[k - 1] * s[k - 1]
    }
}

/// The phase `b - <a, s>` of the LWE ciphertext `ct = (a, b)` under the key `s`.
pub open spec fn lwe_phase(ct: Seq<u64>, key: Seq<u64>) -> u64 {
    t64(ct.last() - dot(ct, key, key.len() as int))
}

/// A binary LWE secret key.
#[derive(Clone, Debug)]
pub struct LweSecretKey {
    pub data: Vec<u64>,
}

impl LweSecretKey {
    pub open spec fn wf(&self) -> bool {
        is_binary(self.data@)
    }

    /// A uniformly random binary key of dimension `dimension`.
    pub fn generate(dimension: usize, generator: &mut Generator) -> (r: Self)
        ensures
            r.wf(),
            r.data.len() == dimension,
    {
        let mut data: Vec<u64> = Vec::with_capacity(dimension);
        let mut i: usize = 0;
        while i < dimension
            invariant
                i <= dimension,
                data.len() == i,
                is_binary(data@),
            decreases dimension - i,
        {
            let b = generator.next_bit();
            data.push(b);
            i = i + 1;
        }
        LweSecretKey { data }
    }
}

/// `<a, s> mod 2^64` over the first `s.len()` coefficients of `a`.
fn dot_exec(a: &Vec<u64>, s: &Vec<u64>) -> (r: u64)
    requires
        s.len() <= a.len(),
    ensures
        r == t64(dot(a@, s@, s.len() as int)),
{
    let mut acc: u64 = 0;
    let mut i: usize = 0;
    proof {
        lemma_small_mod(0, torus() as nat);
    }
    while i < s.len()
        invariant
            s.len() <= a.len(),
            i <= s.len(),
            acc == t64(dot(a@, s@, i as int)),
        decreases s.len() - i,
    {
        proof {
            lemma_wrapping_mul(a@[i as int], s@[i as int]);
            lemma_wrapping_add(acc, t64(a@[i as int] * s@[i as int]));
            lemma_t64_add(dot(a@, s@, i as int), a@[i as int] * s@[i as int]);
        }
        acc = acc.wrapping_add(a[i].wrapping_mul(s[i]));
        i = i + 1;
    }
    acc
}

/// The phase `b - <a, s> mod 2^64` of `ct` under `key`: the encoded message plus noise.
pub fn decrypt_lwe_ciphertext(key: &LweSecretKey, ct: &LweCiphertext) -> (r: u64)
    requires
        ct.wf(),
        ct.data.len() == key.data.len() + 1,
    ensures
        r == lwe_phase(ct.data@, key.data@),
{
    let d = dot_exec(&ct.data, &key.data);
    let b = ct.data[ct.data.len() - 1];
    proof {
        lemma_wrapping_sub(b, d);
        lemma_t64_add(b as int, dot(ct.data@, key.data@, key.data.len() as int));
        lemma_small_mod(b as nat, torus() as nat);
    }
    b.wrapping_sub(d)
}

/// Encrypts the encoded message `plaintext` under `key` with the native modulus: a uniform
/// mask, and a body whose phase is `plaintext + e` for a noise `e` in `[-2^noise_log, 2^noise_log]`.
pub fn encrypt_lwe_ciphertext(
    key: &LweSecretKey,
    plaintext: u64,
    noise_log: u32,
    generator: &mut Generator,
) -> (r: LweCiphertext)
    requires
        noise_log <= 62,
        key.data.len() < usize::MAX,
    ensures
        r.wf(),
        r.ciphertext_modulus.is_native(),
        r.data.len() == key.data.len() + 1,
        exists|e: u64| is_small(e, noise_log as nat) && lwe_phase(r.data@, key.data@) == #[trigger] t64(plaintext + e),
{
    let n = key.data.len();
    let mut data: Vec<u64> = Vec::with_capacity(n + 1);
    let mut i: usize = 0;
    while i < n
        invariant
            n == key.data.len(),
            i <= n,
            data.len() == i,
        decreases n - i,
    {
        let a = generator.next_u64();
        data.push(a);
        i = i + 1;
    }
    let e = generator.next_noise(noise_log);
    data.push(0);
    let d = dot_exec(&data, &key.data);
    let b = d.wrapping_add(plaintext).wrapping_add(e);
    let ghost before = data@;
    data.set(n, b);
    proof {
        assert forall|k: int| 0 <= k <= n implies #[trigger] dot(data@, key.data@, k) == dot(before, key.data@, k) by {
            lemma_dot_prefix(data@, before, key.data@, k);
        }
        let dd = dot(before, key.data@, n as int);
        lemma_wrapping_add(d, plaintext);
        lemma_wrapping_add(t64(d + plaintext), e);
        lemma_t64_add(dd, plaintext as int);
        lemma_small_mod(plaintext as nat, torus() as nat);
        lemma_small_mod(e as nat, torus() as nat);
        lemma_t64_add(dd + plaintext, e as int);
        lemma_t64_add(dd + plaintext + e, dd);
        lemma_t64_bounds(dd);
        lemma_t64_add(b as int, dd);
        lemma_small_mod(b as nat, torus() as nat);
        assert(lwe_phase(data@, key.data@) == t64(plaintext + e));
    }
    LweCiphertext { data, ciphertext_modulus: CiphertextModulus::new_native() }
}

proof fn lemma_dot_prefix(a: Seq<u64>, b: Seq<u64>, s: Seq<u64>, k: int)
    requires
        0 <= k <= a.len(),
        a.len() == b.len(),
        forall|i: int| 0 <= i < k ==> a[i] == b[i],
    ensures
        dot(a, s, k) == dot(b, s, k),
    decreases k,
{
    if k > 0 {
        lemma_dot_prefix(a, b, s, k - 1);
    }
}

/// A binary GLWE secret key: `k` polynomials of `polynomial_size` coefficients, stored flat.
/// Read flat, it is also the LWE key of the ciphertexts that sample extraction produces.
#[derive(Clone, Debug)]
pub struct GlweSecretKey {
    pub data: Vec<u64>,
    pub polynomial_size: usize,
}

impl GlweSecretKey {
    pub open spec fn wf(&self) -> bool {
        &&& is_binary(self.data@)
        &&& self.polynomial_size >= 1
        &&& self.data.len() % self.polynomial_size == 0
    }

    /// A uniformly random binary key of `glwe_dimension` polynomials.
    pub fn generate(glwe_dimension: usize, polynomial_size: usize, generator: &mut Generator) -> (r: Self)
        requires
            polynomial_size >= 1,
            glwe_dimension * polynomial_size <= usize::MAX,
        ensures
            r.wf(),
            r.data.len() == glwe_dimension * polynomial_size,
            r.polynomial_size == polynomial_size,
    {
        let lwe = LweSecretKey::generate(glwe_dimension * polynomial_size, generator);
        proof {
            lemma_mod_multiples_basic(glwe_dimension as int, polynomial_size as int);
        }
        GlweSecretKey { data: lwe.data, polynomial_size }
    }

    /// The key read flat as an LWE secret key.
    pub fn as_lwe_secret_key(&self) -> (r: LweSecretKey)
        requires
            self.wf(),
        ensures
            r.wf(),
            r.data@ == self.data@,
    {
        let data = copy_range(&self.data, 0, self.data.len());
        assert(data@ =~= self.data@);
        LweSecretKey { data }
    }
}

/// `sum_{j < k} A_j * S_j` for the mask polynomials `A_j` of `ct` and the key polynomials
/// `S_j` of `key`.
pub open spec fn mask_key_sum(ct: Seq<u64>, key: Seq<u64>, n: nat, k: int) -> Seq<u64>
    decreases k,
{
    if k <= 0 {
        poly_zero(n)
    } else {
        poly_add(mask_key_sum(ct, key, n, k - 1), poly_mul(poly_at(ct, n, k - 1), poly_at(key, n, k - 1)))
    }
}

/// The phase `B - sum_j A_j * S_j` of the GLWE ciphertext `ct` under `key`.
pub open spec fn glwe_phase(ct: Seq<u64>, key: Seq<u64>, n: nat) -> Seq<u64> {
    let k = key.len() / n;
    poly_sub(poly_at(ct, n, k as int), mask_key_sum(ct, key, n, k as int))
}

proof fn lemma_mask_key_sum_prefix(a: Seq<u64>, b: Seq<u64>, key: Seq<u64>, n: nat, k: int)
    requires
        n > 0,
        0 <= k,
        k * n <= a.len(),
        k * n <= b.len(),
        a.subrange(0, k * n) == b.subrange(0, k * n),
    ensures
        mask_key_sum(a, key, n, k) == mask_key_sum(b, key, n, k),
    decreases k,
{
    if k > 0 {
        assert((k - 1) * n + n == k * n) by (nonlinear_arith);
        assert(0 <= (k - 1) * n) by (nonlinear_arith)
            requires
                k >= 1,
        ;
        assert(a.subrange(0, (k - 1) * n) =~= a.subrange(0, k * n).subrange(0, (k - 1) * n));
        assert(b.subrange(0, (k - 1) * n) =~= b.subrange(0, k * n).subrange(0, (k - 1) * n));
        lemma_mask_key_sum_prefix(a, b, key, n, k - 1);
        assert(poly_at(a, n, k - 1) =~= a.subrange(0, k * n).subrange((k - 1) * n, k * n));
        assert(poly_at(b, n, k - 1) =~= b.subrange(0, k * n).subrange((k - 1) * n, k * n));
    }
}

proof fn lemma_mask_key_sum_len(ct: Seq<u64>, key: Seq<u64>, n: nat, k: int)
    ensures
        mask_key_sum(ct, key, n, k).len() == n,
    decreases k,
{
    if k > 0 {
        lemma_mask_key_sum_len(ct, key, n, k - 1);
    }
}

/// A GLWE encryption of zero under `key`: uniform mask polynomials `A_j` and the body
/// `sum_j A_j * S_j + E` with a small noise polynomial `E`, so that the phase is `E`.
fn encrypt_glwe_zero(key: &GlweSecretKey, noise_log: u32, generator: &mut Generator) -> (r: Vec<u64>)
    requires
        key.wf(),
        key.polynomial_size <= crate::glwe::MAX_POLYNOMIAL_SIZE,
        key.data.len() + key.polynomial_size <= usize::MAX,
        noise_log <= 62,
    ensures
        r.len() == key.data.len() + key.polynomial_size,
        glwe_phase(r@, key.data@, key.polynomial_size as nat).len() == key.polynomial_size,
        phase_is_small(r@, key.data@, key.polynomial_size as nat, noise_log as nat),
{
    let n = key.polynomial_size;
    let k = key.data.len() / n;
    proof {
        lemma_flat_size(key.data.len() as nat, n as nat);
    }
    let mut out: Vec<u64> = Vec::with_capacity(key.data.len() + n);
    let mut body: Vec<u64> = Vec::with_capacity(n);
    let mut x: usize = 0;
    while x < n
        invariant
            n == key.polynomial_size,
            noise_log <= 62,
            x <= n,
            body.len() == x,
            forall|y: int| 0 <= y < x ==> is_small(#[trigger] body@[y], noise_log as nat),
        decreases n - x,
    {
        let e = generator.next_noise(noise_log);
        body.push(e);
        x = x + 1;
    }
    let ghost noise = body@;
    let mut j: usize = 0;
    proof {
        assert(poly_add(noise, poly_zero(n as nat)) =~= noise) by {
            assert forall|y: int| 0 <= y < n implies #[trigger] poly_add(noise, poly_zero(n as nat))[y] == noise[y] by {
                lemma_small_mod(noise[y] as nat, torus() as nat);
            }
        }
    }
    while j < k
        invariant
            key.wf(),
            n == key.polynomial_size,
            k * n == key.data.len(),
            j <= k,
            out.len() == j * n,
            body.len() == n,
            noise.len() == n,
            body@ == poly_add(noise, mask_key_sum(out@, key.data@, n as nat, j as int)),
        decreases k - j,
    {
        let mut mask: Vec<u64> = Vec::with_capacity(n);
        let mut y: usize = 0;
        while y < n
            invariant
                y <= n,
                mask.len() == y,
            decreases n - y,
        {
            let a = generator.next_u64();
            mask.push(a);
            y = y + 1;
        }
        proof {
            lemma_chunk_bounds(j as int, k as int, n as int);
        }
        let s = copy_range(&key.data, j * n, j * n + n);
        let prod = polynomial_wrapping_mul(&mask, &s);
        let ghost sum_before = mask_key_sum(out@, key.data@, n as nat, j as int);
        let ghost mask_seq = mask@;
        polynomial_wrapping_add_assign(&mut body, &prod);
        let ghost out_before = out@;
        out.append(&mut mask);
        proof {
            assert((j + 1) * n == j * n + n) by (nonlinear_arith);
            assert(out@.subrange(0, j * n) =~= out_before.subrange(0, j * n));
            lemma_mask_key_sum_prefix(out@, out_before, key.data@, n as nat, j as int);
            assert(poly_at(out@, n as nat, j as int) =~= mask_seq);
            assert(s@ == poly_at(key.data@, n as nat, j as int));
            lemma_mask_key_sum_len(out_before, key.data@, n as nat, j as int);
            let next = mask_key_sum(out@, key.data@, n as nat, j + 1);
            assert forall|y: int| 0 <= y < n implies #[trigger] body@[y] == poly_add(noise, next)[y] by {
                lemma_t64_add(noise[y] + sum_before[y], prod@[y] as int);
                lemma_t64_add(noise[y] as int, sum_before[y] + prod@[y]);
                lemma_small_mod(noise[y] as nat, torus() as nat);
                lemma_small_mod(prod@[y] as nat, torus() as nat);
                lemma_small_mod(sum_before[y] as nat, torus() as nat);
                lemma_t64_add(sum_before[y] as int, prod@[y] as int);
            }
            assert(body@ =~= poly_add(noise, next));
        }
        j = j + 1;
    }
    let ghost masks = out@;
    let ghost body_seq = body@;
    out.append(&mut body);
    proof {
        let kk = key.data.len() as int / n as int;
        assert(kk == k) by {
            lemma_div_multiples_vanish(k as int, n as int);
            vstd::arithmetic::mul::lemma_mul_is_commutative(k as int, n as int);
        }
        assert(out@.subrange(0, k * n) =~= masks.subrange(0, k * n));
        lemma_mask_key_sum_prefix(out@, masks, key.data@, n as nat, k as int);
        assert(poly_at(out@, n as nat, k as int) =~= body_seq);
        lemma_mask_key_sum_len(masks, key.data@, n as nat, k as int);
        let m = mask_key_sum(masks, key.data@, n as nat, k as int);
        assert forall|y: int| 0 <= y < n implies is_small(
            #[trigger] glwe_phase(out@, key.data@, n as nat)[y],
            noise_log as nat,
        ) by {
            lemma_small_mod(noise[y] as nat, torus() as nat);
            lemma_small_mod(m[y] as nat, torus() as nat);
            lemma_t64_add(noise[y] + m[y], m[y] as int);
            lemma_t64_add(noise[y] as int, m[y] as int);
            assert(glwe_phase(out@, key.data@, n as nat)[y] == t64(body_seq[y] - m[y]));
        }
    }
    out
}

/// Row `r` of the GGSW ciphertext `g`: a GLWE ciphertext.
pub open spec fn ggsw_row(g: Seq<u64>, shape: GgswShape, r: int) -> Seq<u64> {
    g.subrange(r * shape.glwe_len(), r * shape.glwe_len() + shape.glwe_len())
}

/// Every coefficient of the phase of the GLWE ciphertext `ct` under `key` lies in
/// `[-2^b, 2^b]`.
pub open spec fn phase_is_small(ct: Seq<u64>, key: Seq<u64>, n: nat, b: nat) -> bool {
    forall|x: int| 0 <= x < n ==> is_small(#[trigger] glwe_phase(ct, key, n)[x], b)
}

/// A GGSW encryption of the bit `m` under `key`: row `(level, j)` is a GLWE encryption of
/// zero with `m * 2^(64 - B * (level + 1))` added to the constant coefficient of its
/// polynomial `j`.
pub fn encrypt_ggsw(key: &GlweSecretKey, m: u64, shape: GgswShape, noise_log: u32, generator: &mut Generator) -> (r: Vec<u64>)
    requires
        key.wf(),
        shape.wf(),
        m <= 1,
        key.polynomial_size == shape.polynomial_size,
        key.data.len() + key.polynomial_size == shape.glwe_len(),
        noise_log <= 62,
    ensures
        r.len() == shape.ggsw_len(),
        m == 0 ==> forall|row: int|
            0 <= row < shape.rows() ==> #[trigger] phase_is_small(
                ggsw_row(r@, shape, row),
                key.data@,
                shape.polynomial_size as nat,
                noise_log as nat,
            ),
{
    let n = shape.polynomial_size;
    let big_k = shape.glwe_size;
    proof {
        shape.lemma_sizes();
    }
    let mut out: Vec<u64> = Vec::with_capacity(shape.ggsw_len_exec());
    let mut level: u32 = 0;
    assert((0 * big_k) * shape.glwe_len() == 0) by (nonlinear_arith);
    while level < shape.level_count
        invariant
            key.wf(),
            shape.wf(),
            m <= 1,
            n == shape.polynomial_size == key.polynomial_size,
            big_k == shape.glwe_size,
            key.data.len() + key.polynomial_size == shape.glwe_len(),
            noise_log <= 62,
            level <= shape.level_count,
            out.len() == (level * big_k) * shape.glwe_len(),
            m == 0 ==> forall|row: int|
                0 <= row < level * big_k ==> #[trigger] phase_is_small(
                    ggsw_row(out@, shape, row),
                    key.data@,
                    n as nat,
                    noise_log as nat,
                ),
        decreases shape.level_count - level,
    {
        proof {
            assert(shape.base_log * (level + 1) <= shape.base_log * shape.level_count) by (nonlinear_arith)
                requires
                    level + 1 <= shape.level_count,
            ;
            assert(shape.base_log * (level + 1) >= 1) by (nonlinear_arith)
                requires
                    shape.base_log >= 1,
            ;
        }
        let shift: u32 = 64 - shape.base_log * (level + 1);
        let gadget: u64 = m << shift;
        let mut j: usize = 0;
        while j < big_k
            invariant
                key.wf(),
                shape.wf(),
                n == shape.polynomial_size == key.polynomial_size,
                big_k == shape.glwe_size,
                key.data.len() + key.polynomial_size == shape.glwe_len(),
                noise_log <= 62,
                level < shape.level_count,
                m <= 1,
                gadget == m << shift,
                j <= big_k,
                out.len() == (level * big_k + j) * shape.glwe_len(),
                m == 0 ==> forall|row: int|
                    0 <= row < level * big_k + j ==> #[trigger] phase_is_small(
                        ggsw_row(out@, shape, row),
                        key.data@,
                        n as nat,
                        noise_log as nat,
                    ),
            decreases big_k - j,
        {
            proof {
                shape.lemma_sizes();
            }
            let mut row = encrypt_glwe_zero(key, noise_log, generator);
            proof {
                lemma_chunk_bounds(j as int, big_k as int, n as int);
                vstd::arithmetic::mul::lemma_mul_is_commutative(big_k as int, n as int);
            }
            let at = j * n;
            let ghost fresh = row@;
            row.set(at, row[at].wrapping_add(gadget));
            proof {
                if m == 0 {
                    assert(0u64 << shift == 0u64) by (bit_vector);
                    lemma_wrapping_add(fresh[at as int], 0);
                    lemma_small_mod(fresh[at as int] as nat, torus() as nat);
                    assert(row@ =~= fresh);
                }
            }
            let ghost before = out@;
            let ghost new_row = row@;
            out.append(&mut row);
            proof {
                let len = shape.glwe_len() as int;
                let cur = level * big_k + j;
                if m == 0 {
                    assert forall|r: int| 0 <= r < cur + 1 implies #[trigger] phase_is_small(
                        ggsw_row(out@, shape, r),
                        key.data@,
                        n as nat,
                        noise_log as nat,
                    ) by {
                        if r < cur {
                            lemma_chunk_bounds(r, cur, len);
                            assert(ggsw_row(out@, shape, r) =~= ggsw_row(before, shape, r));
                        } else {
                            assert(ggsw_row(out@, shape, r) =~= new_row);
                        }
                    }
                }
                assert((level * big_k + j) * shape.glwe_len() + shape.glwe_len() == (level * big_k + j + 1)
                    * shape.glwe_len()) by (nonlinear_arith);
                assert((level * big_k + j + 1) * shape.glwe_len() <= shape.ggsw_len()) by {
                    shape.lemma_sizes();
                    assert(level * big_k + j + 1 <= shape.rows()) by (nonlinear_arith)
                        requires
                            level + 1 <= shape.level_count,
                            j < big_k,
                            shape.rows() == shape.level_count * big_k,
                    ;
                    assert((level * big_k + j + 1) * shape.glwe_len() <= shape.rows() * shape.glwe_len()) by (nonlinear_arith)
                        requires
                            level * big_k + j + 1 <= shape.rows(),
                    ;
                }
            }
            j = j + 1;
        }
        proof {
            assert((level * big_k + big_k) == (level + 1) * big_k) by (nonlinear_arith);
        }
        level = level + 1;
    }
    proof {
        assert((shape.level_count * big_k) * shape.glwe_len() == shape.ggsw_len()) by (nonlinear_arith)
            requires
                shape.rows() == shape.level_count * big_k,
                shape.rows() * shape.glwe_len() == shape.ggsw_len(),
        ;
    }
    out
}

/// A bootstrapping key for inputs under `lwe_key`: the GGSW encryption under `glwe_key` of
/// each coefficient of `lwe_key`, in order.
pub fn generate_bootstrap_key(
    lwe_key: &LweSecretKey,
    glwe_key: &GlweSecretKey,
    shape: GgswShape,
    noise_log: u32,
    generator: &mut Generator,
) -> (r: FourierLweBootstrapKey)
    requires
        lwe_key.wf(),
        glwe_key.wf(),
        shape.wf(),
        is_power_of_two(shape.polynomial_size as nat),
        glwe_key.polynomial_size == shape.polynomial_size,
        glwe_key.data.len() + glwe_key.polynomial_size == shape.glwe_len(),
        lwe_key.data.len() * shape.ggsw_len() <= usize::MAX,
        noise_log <= 62,
    ensures
        r.wf(),
        r.input_lwe_dimension == lwe_key.data.len(),
        r.shape == shape,
        forall|i: int, row: int|
            0 <= i < lwe_key.data.len() && lwe_key.data@[i] == 0 && 0 <= row < shape.rows()
                ==> #[trigger] phase_is_small(
                ggsw_row(bsk_ggsw(r.data@, shape, i), shape, row),
                glwe_key.data@,
                shape.polynomial_size as nat,
                noise_log as nat,
            ),
{
    let dim = lwe_key.data.len();
    let mut data: Vec<u64> = Vec::new();
    let mut i: usize = 0;
    while i < dim
        invariant
            lwe_key.wf(),
            glwe_key.wf(),
            shape.wf(),
            glwe_key.polynomial_size == shape.polynomial_size,
            glwe_key.data.len() + glwe_key.polynomial_size == shape.glwe_len(),
            dim == lwe_key.data.len(),
            dim * shape.ggsw_len() <= usize::MAX,
            noise_log <= 62,
            i <= dim,
            data.len() == i * shape.ggsw_len(),
            forall|i2: int, row: int|
                0 <= i2 < i && lwe_key.data@[i2] == 0 && 0 <= row < shape.rows() ==> #[trigger] phase_is_small(
                    ggsw_row(bsk_ggsw(data@, shape, i2), shape, row),
                    glwe_key.data@,
                    shape.polynomial_size as nat,
                    noise_log as nat,
                ),
        decreases dim - i,
    {
        let mut g = encrypt_ggsw(glwe_key, lwe_key.data[i], shape, noise_log, generator);
        let ghost before = data@;
        let ghost fresh = g@;
        data.append(&mut g);
        proof {
            let len = shape.ggsw_len() as int;
            shape.lemma_sizes();
            assert forall|i2: int, row: int|
                0 <= i2 < i + 1 && lwe_key.data@[i2] == 0 && 0 <= row < shape.rows() implies #[trigger] phase_is_small(
                ggsw_row(bsk_ggsw(data@, shape, i2), shape, row),
                glwe_key.data@,
                shape.polynomial_size as nat,
                noise_log as nat,
            ) by {
                if i2 < i {
                    lemma_chunk_bounds(i2, i as int, len);
                    assert(bsk_ggsw(data@, shape, i2) =~= bsk_ggsw(before, shape, i2));
                } else {
                    assert(bsk_ggsw(data@, shape, i2) =~= fresh);
                }
            }
            assert(i * shape.ggsw_len() + shape.ggsw_len() == (i + 1) * shape.ggsw_len()) by (nonlinear_arith);
            assert((i + 1) * shape.ggsw_len() <= dim * shape.ggsw_len()) by (nonlinear_arith)
                requires
                    i + 1 <= dim,
            ;
        }
        i = i + 1;
    }
    FourierLweBootstrapKey { data, input_lwe_dimension: dim, shape }
}

} // verus!
