//! GGSW ciphertexts, the external product and the CMUX gate.
//!
//! A GGSW ciphertext with glwe size `K`, `l` levels and polynomials of `N` coefficients is
//! `l` matrices of `K` rows, each row a GLWE ciphertext of `K` polynomials. Row
//! `r = level * K + j` is met by the digit polynomial of level `level + 1` of input
//! polynomial `j` in the external product.
use crate::arith::{copy_range, lemma_chunk_bounds, lemma_chunk_index, lemma_pow2_64, lemma_t64_add, t64, torus};
use crate::decomposition::{
    closest_representable, decomposition_term, decomposition_term_exec, lemma_decomposition_recomposes,
    recompose, valid_decomposition,
};
use crate::glwe::{GlweCiphertext, MAX_POLYNOMIAL_SIZE};
use crate::polynomial::{
    negacyclic_sum, poly_add, poly_mul, poly_sub, poly_zero, polynomial_wrapping_add_assign,
    polynomial_wrapping_mul, polynomial_wrapping_sub_assign,
};
use vstd::arithmetic::div_mod::*;
use vstd::arithmetic::power2::*;
use vstd::prelude::*;

verus! {

/// The dimensions of a GGSW ciphertext.
#[derive(Clone, Copy, Debug, PartialEq, Eq, Structural)]
pub struct GgswShape {
    pub polynomial_size: usize,
    pub glwe_size: usize,
    pub base_log: u32,
    pub level_count: u32,
}

impl GgswShape {
    pub open spec fn wf(self) -> bool {
        &&& 1 <= self.polynomial_size <= MAX_POLYNOMIAL_SIZE
        &&& 1 <= self.glwe_size
        &&& valid_decomposition(self.base_log as nat, self.level_count as nat)
        &&& self.ggsw_len() <= usize::MAX
    }

    /// The number of coefficients of a GLWE ciphertext of this shape.
    pub open spec fn glwe_len(self) -> nat {
        (self.glwe_size * self.polynomial_size) as nat
    }

    /// The number of rows, `l * K`.
    pub open spec fn rows(self) -> nat {
        (self.level_count * self.glwe_size) as nat
    }

    /// The number of coefficients of a GGSW ciphertext of this shape.
    pub open spec fn ggsw_len(self) -> nat {
        (self.rows() * self.glwe_size * self.polynomial_size) as nat
    }

    pub proof fn lemma_sizes(self)
        requires
            self.wf(),
        ensures
            self.polynomial_size <= self.glwe_len() <= self.ggsw_len() <= usize::MAX,
            self.rows() * self.glwe_size <= self.ggsw_len(),
            self.glwe_len() == self.glwe_size * self.polynomial_size,
            self.ggsw_len() == self.rows() * self.glwe_size * self.polynomial_size,
            self.rows() == self.level_count * self.glwe_size,
            self.glwe_size <= self.rows() <= self.ggsw_len(),
            self.rows() * self.glwe_len() == self.ggsw_len(),
    {
        let n = self.polynomial_size as int;
        let k = self.glwe_size as int;
        let l = self.level_count as int;
        assert(n <= k * n) by (nonlinear_arith)
            requires
                k >= 1,
                n >= 1,
        ;
        assert(k * n <= (l * k) * k * n) by (nonlinear_arith)
            requires
                k >= 1,
                n >= 1,
                l >= 1,
        ;
        assert(k <= l * k) by (nonlinear_arith)
            requires
                k >= 1,
                l >= 1,
        ;
        assert((l * k) * (k * n) == (l * k) * k * n) by (nonlinear_arith);
        assert((l * k) * k <= (l * k) * k * n) by (nonlinear_arith)
            requires
                k >= 1,
                n >= 1,
                l >= 1,
        ;
        assert(l * k <= (l * k) * k * n) by (nonlinear_arith)
            requires
                k >= 1,
                n >= 1,
                l >= 1,
        ;
    }

    /// `l * K * K * N`.
    pub fn ggsw_len_exec(&self) -> (r: usize)
        requires
            self.wf(),
        ensures
            r == self.ggsw_len(),
    {
        proof {
            self.lemma_sizes();
        }
        self.level_count as usize * self.glwe_size * self.glwe_size * self.polynomial_size
    }

    /// `K * N`.
    pub fn glwe_len_exec(&self) -> (r: usize)
        requires
            self.wf(),
        ensures
            r == self.glwe_len(),
    {
        proof {
            self.lemma_sizes();
        }
        self.glwe_size * self.polynomial_size
    }

    /// Row `r`, polynomial `c` lies inside the GGSW ciphertext.
    pub proof fn lemma_poly_bounds(self, r: int, c: int)
        requires
            self.wf(),
            0 <= r < self.rows(),
            0 <= c < self.glwe_size,
        ensures
            0 <= r * self.glwe_size + c <= (r * self.glwe_size + c) * self.polynomial_size,
            (r * self.glwe_size + c) * self.polynomial_size + self.polynomial_size <= self.ggsw_len(),
    {
        let k = self.glwe_size as int;
        let rows = self.rows() as int;
        let i = r * k + c;
        assert(0 <= i < rows * k) by (nonlinear_arith)
            requires
                0 <= r,
                r + 1 <= rows,
                0 <= c < k,
                i == r * k + c,
        ;
        assert(i <= i * self.polynomial_size) by (nonlinear_arith)
            requires
                i >= 0,
                self.polynomial_size >= 1,
        ;
        assert(rows * k * self.polynomial_size == (rows * k) * self.polynomial_size);
        lemma_chunk_bounds(i, self.rows() * k, self.polynomial_size as int);
    }
}

/// Polynomial `c` of row `r` of the GGSW ciphertext `g`.
pub open spec fn ggsw_poly(g: Seq<u64>, shape: GgswShape, r: int, c: int) -> Seq<u64> {
    let n = shape.polynomial_size as int;
    let at = (r * shape.glwe_size + c) * n;
    g.subrange(at, at + n)
}

/// The digit polynomial met by row `r`: the level `r / K + 1` digits of polynomial `r % K`
/// of the GLWE ciphertext `ct`.
pub open spec fn digit_poly(ct: Seq<u64>, shape: GgswShape, r: int) -> Seq<u64> {
    let n = shape.polynomial_size as int;
    let k = shape.glwe_size as int;
    Seq::new(
        shape.polynomial_size as nat,
        |x: int|
            decomposition_term(
                ct[(r % k) * n + x],
                shape.base_log as nat,
                shape.level_count as nat,
                (r / k) as nat,
            ),
    )
}

/// The contribution of row `r` to the external product: the digit polynomial times each
/// polynomial of the row.
pub open spec fn row_contribution(ct: Seq<u64>, g: Seq<u64>, shape: GgswShape, r: int) -> Seq<u64> {
    let n = shape.polynomial_size as int;
    Seq::new(
        shape.glwe_len(),
        |x: int| poly_mul(digit_poly(ct, shape, r), ggsw_poly(g, shape, r, x / n))[x % n],
    )
}

/// The sum of the contributions of the first `r` rows.
pub open spec fn external_product_partial(ct: Seq<u64>, g: Seq<u64>, shape: GgswShape, r: int) -> Seq<u64>
    decreases r,
{
    if r <= 0 {
        poly_zero(shape.glwe_len())
    } else {
        poly_add(
            external_product_partial(ct, g, shape, r - 1),
            row_contribution(ct, g, shape, r - 1),
        )
    }
}

/// The external product of the GLWE ciphertext `ct` by the GGSW ciphertext `g`.
pub open spec fn external_product(ct: Seq<u64>, g: Seq<u64>, shape: GgswShape) -> Seq<u64> {
    external_product_partial(ct, g, shape, shape.rows() as int)
}

/// `ct0 + g ⊡ (ct1 - ct0)`: `ct0` when `g` encrypts 0, `ct1` when it encrypts 1, up to noise.
pub open spec fn cmux_result(ct0: Seq<u64>, ct1: Seq<u64>, g: Seq<u64>, shape: GgswShape) -> Seq<u64> {
    poly_add(ct0, external_product(poly_sub(ct1, ct0), g, shape))
}

/// A GGSW ciphertext.
#[derive(Clone, Debug)]
pub struct GgswCiphertext {
    pub data: Vec<u64>,
    pub shape: GgswShape,
}

impl GgswCiphertext {
    pub open spec fn wf(&self) -> bool {
        self.shape.wf() && self.data.len() == self.shape.ggsw_len()
    }

    pub fn from_container(data: Vec<u64>, shape: GgswShape) -> (r: Self)
        requires
            shape.wf(),
            data.len() == shape.ggsw_len(),
        ensures
            r.wf(),
            r.data == data,
            r.shape == shape,
    {
        GgswCiphertext { data, shape }
    }
}

/// The digit polynomial of row `r` of `ct`.
fn digit_polynomial(ct: &Vec<u64>, shape: GgswShape, r: usize) -> (d: Vec<u64>)
    requires
        shape.wf(),
        ct.len() == shape.glwe_len(),
        r < shape.rows(),
    ensures
        d@ == digit_poly(ct@, shape, r as int),
{
    let n = shape.polynomial_size;
    let k = shape.glwe_size;
    let j = r % k;
    let level = r / k;
    proof {
        shape.lemma_sizes();
        lemma_mod_bound(r as int, k as int);
        lemma_fundamental_div_mod(r as int, k as int);
        lemma_div_pos_is_pos(r as int, k as int);
        assert(level < shape.level_count) by (nonlinear_arith)
            requires
                r == k * level + j,
                0 <= j,
                r < shape.level_count * k,
                k >= 1,
        ;
        lemma_chunk_bounds(j as int, k as int, n as int);
        vstd::arithmetic::mul::lemma_mul_is_commutative(k as int, n as int);
    }
    let start = j * n;
    let mut d: Vec<u64> = Vec::with_capacity(n);
    let mut x: usize = 0;
    while x < n
        invariant
            shape.wf(),
            n == shape.polynomial_size,
            ct.len() == shape.glwe_len(),
            start == j * n,
            start + n <= ct.len(),
            j == r % k,
            k == shape.glwe_size,
            level == r / k,
            level < shape.level_count,
            x <= n,
            d.len() == x,
            forall|y: int| 0 <= y < x ==> #[trigger] d@[y] == digit_poly(ct@, shape, r as int)[y],
        decreases n - x,
    {
        let v = decomposition_term_exec(ct[start + x], shape.base_log, shape.level_count, level as u32);
        d.push(v);
        x = x + 1;
    }
    assert(d@ =~= digit_poly(ct@, shape, r as int));
    d
}

/// The contribution of row `r` of the GGSW ciphertext `g[start..]` to the external product.
fn row_contribution_exec(ct: &Vec<u64>, g: &Vec<u64>, start: usize, shape: GgswShape, r: usize) -> (out: Vec<u64>)
    requires
        shape.wf(),
        ct.len() == shape.glwe_len(),
        start + shape.ggsw_len() <= g.len(),
        r < shape.rows(),
    ensures
        out@ == row_contribution(
            ct@,
            g@.subrange(start as int, start + shape.ggsw_len()),
            shape,
            r as int,
        ),
{
    let ghost gs = g@.subrange(start as int, start + shape.ggsw_len());
    let n = shape.polynomial_size;
    let k = shape.glwe_size;
    proof {
        shape.lemma_sizes();
    }
    let d = digit_polynomial(ct, shape, r);
    let mut out: Vec<u64> = Vec::with_capacity(k * n);
    let mut c: usize = 0;
    while c < k
        invariant
            shape.wf(),
            n == shape.polynomial_size,
            k == shape.glwe_size,
            start + shape.ggsw_len() <= g.len(),
            r < shape.rows(),
            gs == g@.subrange(start as int, start + shape.ggsw_len()),
            d@ == digit_poly(ct@, shape, r as int),
            c <= k,
            out.len() == c * n,
            forall|x: int|
                0 <= x < out.len() ==> #[trigger] out@[x] == poly_mul(
                    digit_poly(ct@, shape, r as int),
                    ggsw_poly(gs, shape, r as int, x / (n as int)),
                )[x % (n as int)],
        decreases k - c,
    {
        proof {
            shape.lemma_poly_bounds(r as int, c as int);
            assert((r * k + c) * n <= usize::MAX);
        }
        let at = (r * k + c) * n;
        let row = copy_range(g, start + at, start + at + n);
        proof {
            assert(row@ =~= ggsw_poly(gs, shape, r as int, c as int));
        }
        let mut p = polynomial_wrapping_mul(&d, &row);
        let ghost before = out@;
        out.append(&mut p);
        proof {
            assert forall|x: int| 0 <= x < out.len() implies #[trigger] out@[x] == poly_mul(
                digit_poly(ct@, shape, r as int),
                ggsw_poly(gs, shape, r as int, x / (n as int)),
            )[x % (n as int)] by {
                if x >= c * n {
                    lemma_chunk_index(x, c as int, n as int);
                } else {
                    assert(out@[x] == before[x]);
                }
            }
            assert((c + 1) * n == c * n + n) by (nonlinear_arith);
        }
        c = c + 1;
    }
    proof {
        vstd::arithmetic::mul::lemma_mul_is_commutative(k as int, n as int);
    }
    assert(out@ =~= row_contribution(ct@, gs, shape, r as int));
    out
}

/// The external product of `ct` by the GGSW ciphertext stored at `g[start..]`.
pub fn external_product_at(ct: &Vec<u64>, g: &Vec<u64>, start: usize, shape: GgswShape) -> (out: Vec<u64>)
    requires
        shape.wf(),
        ct.len() == shape.glwe_len(),
        start + shape.ggsw_len() <= g.len(),
    ensures
        out@ == external_product(ct@, g@.subrange(start as int, start + shape.ggsw_len()), shape),
        out.len() == shape.glwe_len(),
{
    let ghost gs = g@.subrange(start as int, start + shape.ggsw_len());
    proof {
        shape.lemma_sizes();
    }
    let rows = shape.level_count as usize * shape.glwe_size;
    let total = shape.glwe_len_exec();
    let mut acc: Vec<u64> = Vec::with_capacity(total);
    let mut i: usize = 0;
    while i < total
        invariant
            i <= total,
            acc@ == poly_zero(i as nat),
        decreases total - i,
    {
        acc.push(0);
        i = i + 1;
        assert(acc@ =~= poly_zero(i as nat));
    }
    let mut r: usize = 0;
    while r < rows
        invariant
            shape.wf(),
            ct.len() == shape.glwe_len(),
            start + shape.ggsw_len() <= g.len(),
            rows == shape.rows(),
            gs == g@.subrange(start as int, start + shape.ggsw_len()),
            r <= rows,
            acc@ == external_product_partial(ct@, gs, shape, r as int),
            acc.len() == shape.glwe_len(),
        decreases rows - r,
    {
        let contribution = row_contribution_exec(ct, g, start, shape, r);
        polynomial_wrapping_add_assign(&mut acc, &contribution);
        r = r + 1;
    }
    acc
}

/// `ct0 <- ct0 + g ⊡ (ct1 - ct0)` with the GGSW ciphertext stored at `g[start..]`.
pub fn cmux_at(ct0: &mut Vec<u64>, ct1: &Vec<u64>, g: &Vec<u64>, start: usize, shape: GgswShape)
    requires
        shape.wf(),
        old(ct0).len() == shape.glwe_len(),
        ct1.len() == shape.glwe_len(),
        start + shape.ggsw_len() <= g.len(),
    ensures
        final(ct0)@ == cmux_result(
            old(ct0)@,
            ct1@,
            g@.subrange(start as int, start + shape.ggsw_len()),
            shape,
        ),
{
    let mut diff = copy_range(ct1, 0, ct1.len());
    assert(diff@ =~= ct1@);
    polynomial_wrapping_sub_assign(&mut diff, ct0);
    let e = external_product_at(&diff, g, start, shape);
    polynomial_wrapping_add_assign(ct0, &e);
}

/// `ct0 <- ct0 + ggsw ⊡ (ct1 - ct0)`: keeps `ct0` when `ggsw` encrypts 0 and selects `ct1`
/// when it encrypts 1 (up to the noise of the external product).
pub fn cmux(ct0: &mut GlweCiphertext, ct1: &GlweCiphertext, ggsw: &GgswCiphertext)
    requires
        old(ct0).wf(),
        ggsw.wf(),
        ggsw.shape.polynomial_size == old(ct0).polynomial_size,
        old(ct0).data.len() == ggsw.shape.glwe_len(),
        ct1.data.len() == ggsw.shape.glwe_len(),
    ensures
        final(ct0).wf(),
        final(ct0).polynomial_size == old(ct0).polynomial_size,
        final(ct0).ciphertext_modulus == old(ct0).ciphertext_modulus,
        final(ct0).data@ == cmux_result(old(ct0).data@, ct1.data@, ggsw.data@, ggsw.shape),
{
    cmux_at(&mut ct0.data, &ct1.data, &ggsw.data, 0, ggsw.shape);
    assert(ggsw.data@.subrange(0, ggsw.shape.ggsw_len() as int) =~= ggsw.data@);
}

} // verus!

verus! {

/// The GGSW ciphertext of the bit `m` with no mask and no noise: row `(level, j)` holds
/// `m * 2^(64 - B * (level + 1))` at the constant coefficient of its polynomial `j`, and
/// zero elsewhere.
pub open spec fn trivial_ggsw(m: u64, shape: GgswShape) -> Seq<u64> {
    let n = shape.polynomial_size as int;
    let k = shape.glwe_size as int;
    let len = shape.glwe_len() as int;
    Seq::new(
        shape.ggsw_len(),
        |x: int|
            if x % len == ((x / len) % k) * n {
                t64(m * pow2((64 - shape.base_log * ((x / len) / k + 1)) as nat))
            } else {
                0u64
            },
    )
}

/// The polynomial of `n` coefficients that is `a` at the constant coefficient, zero elsewhere.
pub open spec fn constant_poly(n: nat, a: u64) -> Seq<u64> {
    Seq::new(n, |t: int| if t == 0 { a } else { 0u64 })
}

proof fn lemma_negacyclic_sum_constant(d: Seq<u64>, a: u64, j: int, k: int)
    requires
        d.len() >= 1,
        0 <= j < d.len(),
        0 <= k <= d.len(),
    ensures
        negacyclic_sum(d, constant_poly(d.len(), a), j, k) == if k > j {
            d[j] * a
        } else {
            0
        },
    decreases k,
{
    let e = constant_poly(d.len(), a);
    if k > 0 {
        lemma_negacyclic_sum_constant(d, a, j, k - 1);
        if k - 1 < j {
            assert(e[j - (k - 1)] == 0);
        } else if k - 1 > j {
            assert(e[j - (k - 1) + d.len()] == 0);
        }
    }
}

proof fn lemma_poly_mul_constant(d: Seq<u64>, a: u64)
    requires
        d.len() >= 1,
    ensures
        poly_mul(d, constant_poly(d.len(), a)) == Seq::new(d.len(), |t: int| t64(d[t] * a)),
{
    assert forall|t: int| 0 <= t < d.len() implies #[trigger] poly_mul(d, constant_poly(d.len(), a))[t] == t64(
        d[t] * a,
    ) by {
        lemma_negacyclic_sum_constant(d, a, t, d.len() as int);
    }
    assert(poly_mul(d, constant_poly(d.len(), a)) =~= Seq::new(d.len(), |t: int| t64(d[t] * a)));
}

/// The gadget weight of level `level + 1`.
pub open spec fn gadget(shape: GgswShape, level: int) -> u64 {
    t64(pow2((64 - shape.base_log * (level + 1)) as nat) as int)
}

proof fn lemma_trivial_ggsw_poly(shape: GgswShape, r: int, c: int)
    requires
        shape.wf(),
        0 <= r < shape.rows(),
        0 <= c < shape.glwe_size,
    ensures
        ggsw_poly(trivial_ggsw(1, shape), shape, r, c) == if c == r % (shape.glwe_size as int) {
            constant_poly(shape.polynomial_size as nat, gadget(shape, r / (shape.glwe_size as int)))
        } else {
            poly_zero(shape.polynomial_size as nat)
        },
{
    let n = shape.polynomial_size as int;
    let k = shape.glwe_size as int;
    let len = shape.glwe_len() as int;
    shape.lemma_sizes();
    shape.lemma_poly_bounds(r, c);
    let g = trivial_ggsw(1, shape);
    let p = ggsw_poly(g, shape, r, c);
    let expected = if c == r % k {
        constant_poly(n as nat, gadget(shape, r / k))
    } else {
        poly_zero(n as nat)
    };
    assert forall|t: int| 0 <= t < n implies #[trigger] p[t] == expected[t] by {
        let x = (r * k + c) * n + t;
        assert(x == r * len + (c * n + t)) by (nonlinear_arith)
            requires
                len == k * n,
                x == (r * k + c) * n + t,
        ;
        lemma_chunk_bounds(c, k, n);
        vstd::arithmetic::mul::lemma_mul_is_commutative(k, n);
        lemma_fundamental_div_mod_converse(x, len, r, c * n + t);
        lemma_mod_bound(r, k);
        lemma_chunk_index(c * n + t, c, n);
        lemma_chunk_bounds(r % k, k, n);
        if c * n + t == (r % k) * n {
            lemma_chunk_index((r % k) * n, r % k, n);
        }
        lemma_small_mod(1, torus() as nat);
    }
    assert(p =~= expected);
}

/// The number of rows `i * K + c` below `r`: the levels of component `c` summed so far.
pub open spec fn levels_before(r: int, c: int, k: int) -> int {
    r / k + if r % k > c {
        1int
    } else {
        0int
    }
}

proof fn lemma_external_product_by_trivial_one(ct: Seq<u64>, shape: GgswShape, r: int, x: int)
    requires
        shape.wf(),
        ct.len() == shape.glwe_len(),
        0 <= r <= shape.rows(),
        0 <= x < shape.glwe_len(),
    ensures
        external_product_partial(ct, trivial_ggsw(1, shape), shape, r)[x] == t64(
            recompose(
                ct[x],
                shape.base_log as nat,
                shape.level_count as nat,
                levels_before(r, x / (shape.polynomial_size as int), shape.glwe_size as int),
            ),
        ),
        external_product_partial(ct, trivial_ggsw(1, shape), shape, r).len() == shape.glwe_len(),
    decreases r,
{
    let n = shape.polynomial_size as int;
    let k = shape.glwe_size as int;
    let g = trivial_ggsw(1, shape);
    shape.lemma_sizes();
    let c = x / n;
    lemma_fundamental_div_mod(x, n);
    lemma_mod_bound(x, n);
    lemma_div_pos_is_pos(x, n);
    assert(c < k) by {
        if c >= k {
            assert(n * c >= n * k) by (nonlinear_arith)
                requires
                    c >= k,
                    n > 0,
            ;
            vstd::arithmetic::mul::lemma_mul_is_commutative(n, k);
        }
    }
    if r == 0 {
        lemma_small_mod(0, torus() as nat);
        assert(levels_before(0, c, k) == 0) by {
            lemma_small_mod(0, k as nat);
        }
    } else {
        let rm = r - 1;
        lemma_external_product_by_trivial_one(ct, shape, rm, x);
        let prev = external_product_partial(ct, g, shape, rm);
        let rc = row_contribution(ct, g, shape, rm);
        lemma_trivial_ggsw_poly(shape, rm, c);
        let level = rm / k;
        lemma_fundamental_div_mod(rm, k);
        lemma_mod_bound(rm, k);
        lemma_div_pos_is_pos(rm, k);
        vstd::arithmetic::mul::lemma_mul_is_commutative(k, shape.level_count as int);
        assert(level < shape.level_count) by {
            if level >= shape.level_count {
                assert(k * level >= k * shape.level_count) by (nonlinear_arith)
                    requires
                        level >= shape.level_count,
                        k > 0,
                ;
            }
        }
        // how many levels of component c the first r rows hold
        if rm % k == k - 1 {
            assert(r == (level + 1) * k + 0) by (nonlinear_arith)
                requires
                    rm == k * level + rm % k,
                    rm % k == k - 1,
                    r == rm + 1,
            ;
            lemma_fundamental_div_mod_converse(r, k, level + 1, 0);
        } else {
            assert(r == level * k + (rm % k + 1)) by (nonlinear_arith)
                requires
                    rm == k * level + rm % k,
                    r == rm + 1,
            ;
            lemma_fundamental_div_mod_converse(r, k, level, rm % k + 1);
        }
        let d = digit_poly(ct, shape, rm);
        let before = recompose(ct[x], shape.base_log as nat, shape.level_count as nat, levels_before(rm, c, k));
        if c == rm % k {
            lemma_poly_mul_constant(d, gadget(shape, level));
            vstd::arithmetic::mul::lemma_mul_is_commutative(c, n);
            assert((rm % k) * n + x % n == x);
            assert(levels_before(r, c, k) == level + 1);
            assert(levels_before(rm, c, k) == level);
            let w = pow2((64 - shape.base_log * (level + 1)) as nat) as int;
            assert(shape.base_log * (level + 1) <= shape.base_log * shape.level_count) by (nonlinear_arith)
                requires
                    level + 1 <= shape.level_count,
            ;
            assert(shape.base_log * (level + 1) >= 1) by (nonlinear_arith)
                requires
                    shape.base_log >= 1,
                    level >= 0,
            ;
            vstd::arithmetic::power2::lemma_pow2_strictly_increases((64 - shape.base_log * (level + 1)) as nat, 64);
            lemma_pow2_64();
            lemma_small_mod(w as nat, torus() as nat);
            let term = decomposition_term(ct[x], shape.base_log as nat, shape.level_count as nat, level as nat);
            assert(rc[x] == t64(term * gadget(shape, level)));
            lemma_mul_mod_noop_right(term as int, w, torus());
            lemma_t64_add(before, term * w);
            lemma_small_mod(prev[x] as nat, torus() as nat);
        } else {
            assert(poly_zero(n as nat) =~= constant_poly(n as nat, 0));
            lemma_poly_mul_constant(d, 0);
            lemma_small_mod(0, torus() as nat);
            assert(rc[x] == 0);
            assert(levels_before(r, c, k) == levels_before(rm, c, k));
            lemma_small_mod(prev[x] as nat, torus() as nat);
        }
    }
}

/// A CMUX through the GGSW ciphertext of the bit 1 with no mask and no noise returns
/// `ct0 + round(ct1 - ct0)` coefficient-wise, the difference rounded to the nearest multiple
/// of `2^(64 - B*l)`: `ct1` up to the rounding of the gadget decomposition.
pub proof fn lemma_cmux_one_selector_takes_second(ct0: Seq<u64>, ct1: Seq<u64>, shape: GgswShape)
    requires
        shape.wf(),
        ct0.len() == shape.glwe_len(),
        ct1.len() == shape.glwe_len(),
    ensures
        cmux_result(ct0, ct1, trivial_ggsw(1, shape), shape) == Seq::new(
            shape.glwe_len(),
            |x: int|
                t64(
                    ct0[x] + closest_representable(
                        t64(ct1[x] - ct0[x]),
                        shape.base_log as nat,
                        shape.level_count as nat,
                    ),
                ),
        ),
{
    let diff = poly_sub(ct1, ct0);
    let k = shape.glwe_size as int;
    let ext = external_product(diff, trivial_ggsw(1, shape), shape);
    assert forall|x: int| 0 <= x < shape.glwe_len() implies #[trigger] ext[x] == closest_representable(
        diff[x],
        shape.base_log as nat,
        shape.level_count as nat,
    ) by {
        lemma_external_product_by_trivial_one(diff, shape, shape.rows() as int, x);
        let c = x / (shape.polynomial_size as int);
        vstd::arithmetic::mul::lemma_mul_is_commutative(shape.level_count as int, k);
        lemma_fundamental_div_mod_converse(shape.rows() as int, k, shape.level_count as int, 0);
        lemma_decomposition_recomposes(diff[x], shape.base_log as nat, shape.level_count as nat);
    }
    shape.lemma_sizes();
    lemma_external_product_by_trivial_one(diff, shape, shape.rows() as int, 0);
    assert(cmux_result(ct0, ct1, trivial_ggsw(1, shape), shape) =~= Seq::new(
        shape.glwe_len(),
        |x: int|
            t64(
                ct0[x] + closest_representable(
                    t64(ct1[x] - ct0[x]),
                    shape.base_log as nat,
                    shape.level_count as nat,
                ),
            ),
    ));
}

} // verus!
