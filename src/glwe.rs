//! GLWE ciphertexts: `k` mask polynomials followed by one body polynomial, stored flat.
use crate::arith::{copy_range, lemma_chunk_bounds, lemma_chunk_index, t64};
use crate::lwe::LweCiphertext;
use crate::modulus::CiphertextModulus;
use crate::polynomial::{monomial_mul_coeff, polynomial_wrapping_monic_monomial_div_assign, polynomial_wrapping_monic_monomial_mul_assign};
use crate::arith::lemma_wrapping_sub;
use vstd::arithmetic::div_mod::*;
use vstd::prelude::*;

verus! {

/// The largest polynomial size handled.
pub const MAX_POLYNOMIAL_SIZE: usize = 0x4000_0000;

/// Polynomial `j` of a flat buffer of polynomials of `n` coefficients.
pub open spec fn poly_at(c: Seq<u64>, n: nat, j: int) -> Seq<u64> {
    c.subrange(j * n, j * n + n)
}

/// Every polynomial of `c` multiplied by `X^d` (any integer `d`).
pub open spec fn glwe_rotate(c: Seq<u64>, n: nat, d: int) -> Seq<u64> {
    Seq::new(c.len(), |x: int| monomial_mul_coeff(poly_at(c, n, x / (n as int)), d, x % (n as int)))
}

/// The LWE ciphertext of coefficient 0 of the GLWE ciphertext `c` with polynomials of `n`
/// coefficients: mask `j*n + i` is `A_j[0]` for `i == 0` and `-A_j[n - i]` otherwise; the
/// body is `B[0]`.
pub open spec fn sample_extract(c: Seq<u64>, n: nat) -> Seq<u64> {
    let k = c.len() / n - 1;
    Seq::new(
        (k * n + 1) as nat,
        |x: int|
            if x == k * n {
                c[k * n]
            } else if x % (n as int) == 0 {
                c[x]
            } else {
                t64(-c[(x / (n as int)) * n + n - x % (n as int)])
            },
    )
}

/// A GLWE ciphertext of `glwe_size` polynomials of `polynomial_size` coefficients.
#[derive(Clone, Debug)]
pub struct GlweCiphertext {
    pub data: Vec<u64>,
    pub polynomial_size: usize,
    pub ciphertext_modulus: CiphertextModulus,
}

impl GlweCiphertext {
    pub open spec fn wf(&self) -> bool {
        &&& 1 <= self.polynomial_size <= MAX_POLYNOMIAL_SIZE
        &&& self.data.len() % self.polynomial_size == 0
        &&& self.data.len() >= self.polynomial_size
        &&& self.ciphertext_modulus.wf()
    }

    pub open spec fn size(&self) -> nat {
        (self.data.len() / self.polynomial_size) as nat
    }

    /// A ciphertext with every coefficient set to `fill`.
    pub fn new(
        fill: u64,
        glwe_size: usize,
        polynomial_size: usize,
        ciphertext_modulus: CiphertextModulus,
    ) -> (r: Self)
        requires
            1 <= polynomial_size <= MAX_POLYNOMIAL_SIZE,
            glwe_size >= 1,
            glwe_size * polynomial_size <= usize::MAX,
            ciphertext_modulus.wf(),
        ensures
            r.wf(),
            r.size() == glwe_size,
            r.data@ == Seq::new((glwe_size * polynomial_size) as nat, |i: int| fill),
            r.polynomial_size == polynomial_size,
            r.ciphertext_modulus == ciphertext_modulus,
    {
        let total = glwe_size * polynomial_size;
        let mut data: Vec<u64> = Vec::with_capacity(total);
        let mut i: usize = 0;
        while i < total
            invariant
                i <= total,
                data@ == Seq::new(i as nat, |j: int| fill),
            decreases total - i,
        {
            data.push(fill);
            i = i + 1;
            assert(data@ =~= Seq::new(i as nat, |j: int| fill));
        }
        proof {
            lemma_mod_multiples_basic(glwe_size as int, polynomial_size as int);
            lemma_div_multiples_vanish(glwe_size as int, polynomial_size as int);
            vstd::arithmetic::mul::lemma_mul_is_commutative(glwe_size as int, polynomial_size as int);
            assert(glwe_size * polynomial_size >= polynomial_size) by (nonlinear_arith)
                requires
                    glwe_size >= 1,
            ;
        }
        GlweCiphertext { data, polynomial_size, ciphertext_modulus }
    }

    /// Wraps `data` as polynomials of `polynomial_size` coefficients.
    pub fn from_container(
        data: Vec<u64>,
        polynomial_size: usize,
        ciphertext_modulus: CiphertextModulus,
    ) -> (r: Self)
        requires
            1 <= polynomial_size <= MAX_POLYNOMIAL_SIZE,
            data.len() % polynomial_size == 0,
            data.len() >= polynomial_size,
            ciphertext_modulus.wf(),
        ensures
            r.wf(),
            r.data == data,
            r.polynomial_size == polynomial_size,
            r.ciphertext_modulus == ciphertext_modulus,
    {
        GlweCiphertext { data, polynomial_size, ciphertext_modulus }
    }

    pub fn polynomial_size(&self) -> (r: usize)
        ensures
            r == self.polynomial_size,
    {
        self.polynomial_size
    }

    pub fn glwe_size(&self) -> (r: usize)
        requires
            self.wf(),
        ensures
            r == self.size(),
    {
        self.data.len() / self.polynomial_size
    }

    pub fn ciphertext_modulus(&self) -> (r: CiphertextModulus)
        ensures
            r == self.ciphertext_modulus,
    {
        self.ciphertext_modulus
    }
}

pub proof fn lemma_flat_size(len: nat, n: nat)
    requires
        n > 0,
        len % n == 0,
    ensures
        len == (len / n) * n,
{
    lemma_fundamental_div_mod(len as int, n as int);
    vstd::arithmetic::mul::lemma_mul_is_commutative(n as int, (len / n) as int);
}

/// Multiplies every polynomial of the flat buffer `c` by `X^degree` or, when `backward`,
/// divides it by `X^degree`.
pub fn glwe_monomial_rotate(c: &Vec<u64>, n: usize, degree: usize, backward: bool) -> (r: Vec<u64>)
    requires
        1 <= n <= MAX_POLYNOMIAL_SIZE,
        c.len() % n == 0,
    ensures
        r@ == glwe_rotate(
            c@,
            n as nat,
            if backward {
                -degree
            } else {
                degree as int
            },
        ),
{
    let ghost e: int = if backward {
        -degree
    } else {
        degree as int
    };
    let k = c.len() / n;
    proof {
        lemma_flat_size(c.len() as nat, n as nat);
    }
    let mut out: Vec<u64> = Vec::with_capacity(c.len());
    let mut j: usize = 0;
    while j < k
        invariant
            1 <= n <= MAX_POLYNOMIAL_SIZE,
            k == c.len() as int / n as int,
            c.len() == k * n,
            j <= k,
            out.len() == j * n,
            e == if backward {
                -degree
            } else {
                degree as int
            },
            forall|x: int|
                0 <= x < out.len() ==> #[trigger] out@[x] == monomial_mul_coeff(
                    poly_at(c@, n as nat, x / (n as int)),
                    e,
                    x % (n as int),
                ),
        decreases k - j,
    {
        proof {
            lemma_chunk_bounds(j as int, k as int, n as int);
        }
        let mut p = copy_range(c, j * n, j * n + n);
        if backward {
            polynomial_wrapping_monic_monomial_div_assign(&mut p, degree);
        } else {
            polynomial_wrapping_monic_monomial_mul_assign(&mut p, degree);
        }
        let ghost before = out@;
        out.append(&mut p);
        proof {
            assert forall|x: int| 0 <= x < out.len() implies #[trigger] out@[x] == monomial_mul_coeff(
                poly_at(c@, n as nat, x / (n as int)),
                e,
                x % (n as int),
            ) by {
                if x >= j * n {
                    lemma_chunk_index(x, j as int, n as int);
                } else {
                    assert(out@[x] == before[x]);
                }
            }
            assert((j + 1) * n == j * n + n) by (nonlinear_arith);
        }
        j = j + 1;
    }
    assert(out@ =~= glwe_rotate(c@, n as nat, e));
    out
}

/// Writes into `lwe_out` the LWE ciphertext of the constant coefficient of `glwe`.
pub fn extract_lwe_sample_from_glwe_ciphertext(glwe: &GlweCiphertext, lwe_out: &mut LweCiphertext)
    requires
        glwe.wf(),
        old(lwe_out).wf(),
        old(lwe_out).data.len() == (glwe.size() - 1) * glwe.polynomial_size + 1,
    ensures
        final(lwe_out).wf(),
        final(lwe_out).ciphertext_modulus == old(lwe_out).ciphertext_modulus,
        final(lwe_out).data.len() == old(lwe_out).data.len(),
        final(lwe_out).data@ == sample_extract(glwe.data@, glwe.polynomial_size as nat),
{
    let n = glwe.polynomial_size;
    proof {
        lemma_div_is_ordered(n as int, glwe.data.len() as int, n as int);
        lemma_div_by_self(n as int);
    }
    let k = glwe.data.len() / n - 1;
    proof {
        lemma_flat_size(glwe.data.len() as nat, n as nat);
        assert(k * n + n == glwe.data.len()) by (nonlinear_arith)
            requires
                glwe.data.len() == (k + 1) * n,
        ;
    }
    let total = k * n;
    let mut x: usize = 0;
    while x < total
        invariant
            glwe.wf(),
            n == glwe.polynomial_size,
            k == glwe.data.len() as int / n as int - 1,
            total == k * n,
            total + n == glwe.data.len(),
            lwe_out.data.len() == total + 1,
            lwe_out.ciphertext_modulus == old(lwe_out).ciphertext_modulus,
            x <= total,
            forall|y: int|
                0 <= y < x ==> #[trigger] lwe_out.data@[y] == sample_extract(glwe.data@, n as nat)[y],
        decreases total - x,
    {
        let i = x % n;
        proof {
            lemma_fundamental_div_mod(x as int, n as int);
            lemma_mod_bound(x as int, n as int);
            lemma_div_pos_is_pos(x as int, n as int);
            assert(n * (x as int / n as int) >= 0) by (nonlinear_arith)
                requires
                    x as int / n as int >= 0,
                    n > 0,
            ;
        }
        let base = x - i;
        proof {
            assert(base == ((x as int / n as int)) * n) by (nonlinear_arith)
                requires
                    x == n * ((x as int / n as int)) + i,
                    base == x - i,
            ;
            assert((x as int / n as int) < k as int) by {
                if (x as int / n as int) >= k {
                    assert(((x as int / n as int)) * n >= k * n) by (nonlinear_arith)
                        requires
                            (x as int / n as int) >= k,
                            n > 0,
                    ;
                }
            }
            assert(base + n <= total) by {
                lemma_chunk_bounds((x as int / n as int), k as int, n as int);
            }
        }
        let v = if i == 0 {
            glwe.data[x]
        } else {
            proof {
                lemma_wrapping_sub(0, glwe.data@[base + n - i]);
            }
            0u64.wrapping_sub(glwe.data[base + n - i])
        };
        lwe_out.data.set(x, v);
        x = x + 1;
    }
    lwe_out.data.set(total, glwe.data[total]);
    assert(lwe_out.data@ =~= sample_extract(glwe.data@, n as nat));
}

} // verus!
