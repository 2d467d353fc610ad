//! Polynomials of `Z_{2^64}[X] / (X^N + 1)`, stored as their `N` coefficients.
use crate::arith::{lemma_t64_add, lemma_t64_bounds, lemma_wrapping_add, lemma_wrapping_mul, lemma_wrapping_sub, t64, torus};
use vstd::arithmetic::div_mod::*;
use vstd::prelude::*;

verus! {

/// Coefficient `j` of `p * X^d`: the coefficients move up by `d` and wrap around with a
/// sign change, since `X^N = -1`.
pub open spec fn monomial_mul_coeff(p: Seq<u64>, d: int, j: int) -> u64 {
    let n = p.len() as int;
    let t = (j - d) % (2 * n);
    if t < n {
        p[t]
    } else {
        t64(-p[t - n])
    }
}

/// `p * X^d`, for any integer `d` (a negative `d` divides by `X^-d`).
pub open spec fn monomial_mul(p: Seq<u64>, d: int) -> Seq<u64> {
    Seq::new(p.len(), |j: int| monomial_mul_coeff(p, d, j))
}

/// `p + q`, coefficient-wise on the torus.
pub open spec fn poly_add(p: Seq<u64>, q: Seq<u64>) -> Seq<u64> {
    Seq::new(p.len(), |j: int| t64(p[j] + q[j]))
}

/// `p - q`, coefficient-wise on the torus.
pub open spec fn poly_sub(p: Seq<u64>, q: Seq<u64>) -> Seq<u64> {
    Seq::new(p.len(), |j: int| t64(p[j] - q[j]))
}

/// The `i`-th term of coefficient `j` of the negacyclic product `a * b`.
pub open spec fn negacyclic_term(a: Seq<u64>, b: Seq<u64>, j: int, i: int) -> int {
    if i <= j {
        a[i] * b[j - i]
    } else {
        -(a[i] * b[j - i + a.len()])
    }
}

/// The sum of the first `k` terms of coefficient `j` of `a * b`.
pub open spec fn negacyclic_sum(a: Seq<u64>, b: Seq<u64>, j: int, k: int) -> int
    decreases k,
{
    if k <= 0 {
        0
    } else {
        negacyclic_sum(a, b, j, k - 1) + negacyclic_term(a, b, j, k - 1)
    }
}

/// The product `a * b` in `Z_{2^64}[X] / (X^N + 1)`.
pub open spec fn poly_mul(a: Seq<u64>, b: Seq<u64>) -> Seq<u64> {
    Seq::new(a.len(), |j: int| t64(negacyclic_sum(a, b, j, a.len() as int)))
}

/// The zero polynomial of `n` coefficients.
pub open spec fn poly_zero(n: nat) -> Seq<u64> {
    Seq::new(n, |j: int| 0u64)
}

/// `p <- p * X^(d mod 2N)` or, when `backward`, `p <- p / X^(d mod 2N)`.
fn monomial_rotate(poly: &mut Vec<u64>, degree: usize, backward: bool)
    requires
        old(poly).len() > 0,
        old(poly).len() <= 0x4000_0000,
    ensures
        final(poly)@ == monomial_mul(
            old(poly)@,
            if backward {
                -degree
            } else {
                degree as int
            },
        ),
{
    let n = poly.len();
    let two_n = 2 * n;
    let d = degree % two_n;
    let ghost e: int = if backward {
        -degree
    } else {
        degree as int
    };
    let mut out: Vec<u64> = Vec::with_capacity(n);
    let mut j: usize = 0;
    while j < n
        invariant
            n == poly.len() == old(poly).len(),
            poly@ == old(poly)@,
            two_n == 2 * n,
            0 < n <= 0x4000_0000,
            d == degree % two_n,
            e == if backward {
                -degree
            } else {
                degree as int
            },
            j <= n,
            out.len() == j,
            forall|k: int| 0 <= k < j ==> #[trigger] out@[k] == monomial_mul_coeff(old(poly)@, e, k),
        decreases n - j,
    {
        let t = if backward {
            (j + d) % two_n
        } else {
            (j + two_n - d) % two_n
        };
        proof {
            let m = two_n as int;
            lemma_fundamental_div_mod(degree as int, m);
            let q = degree as int / m;
            if backward {
                assert(j - e == (j + d) + q * m);
                lemma_mod_multiples_vanish(q, j + d, m);
            } else {
                assert(j - e == (j + two_n - d) + (-q - 1) * m) by (nonlinear_arith)
                    requires
                        degree == m * q + d,
                        m == two_n,
                        e == degree,
                ;
                lemma_mod_multiples_vanish(-q - 1, j + two_n - d, m);
            }
        }
        let v = if t < n {
            poly[t]
        } else {
            proof {
                lemma_wrapping_sub(0, poly@[t - n]);
            }
            0u64.wrapping_sub(poly[t - n])
        };
        out.push(v);
        j = j + 1;
    }
    proof {
        assert(out@ =~= monomial_mul(old(poly)@, e));
    }
    *poly = out;
}

/// `p <- p * X^d` in `Z_{2^64}[X] / (X^N + 1)`.
pub fn polynomial_wrapping_monic_monomial_mul_assign(poly: &mut Vec<u64>, degree: usize)
    requires
        old(poly).len() > 0,
        old(poly).len() <= 0x4000_0000,
    ensures
        final(poly)@ == monomial_mul(old(poly)@, degree as int),
{
    monomial_rotate(poly, degree, false);
}

/// `p <- p / X^d` (that is `p * X^-d`) in `Z_{2^64}[X] / (X^N + 1)`.
pub fn polynomial_wrapping_monic_monomial_div_assign(poly: &mut Vec<u64>, degree: usize)
    requires
        old(poly).len() > 0,
        old(poly).len() <= 0x4000_0000,
    ensures
        final(poly)@ == monomial_mul(old(poly)@, -degree),
{
    monomial_rotate(poly, degree, true);
}

/// `p <- p + q`, coefficient-wise on the torus.
pub fn polynomial_wrapping_add_assign(p: &mut Vec<u64>, q: &Vec<u64>)
    requires
        old(p).len() == q.len(),
    ensures
        final(p)@ == poly_add(old(p)@, q@),
{
    let n = p.len();
    let mut i: usize = 0;
    while i < n
        invariant
            n == p.len() == q.len() == old(p).len(),
            i <= n,
            forall|j: int| 0 <= j < i ==> #[trigger] p@[j] == t64(old(p)@[j] + q@[j]),
            forall|j: int| i <= j < n ==> #[trigger] p@[j] == old(p)@[j],
        decreases n - i,
    {
        proof {
            lemma_wrapping_add(p@[i as int], q@[i as int]);
        }
        let v = p[i].wrapping_add(q[i]);
        p.set(i, v);
        i = i + 1;
    }
    assert(p@ =~= poly_add(old(p)@, q@));
}

/// `p <- p - q`, coefficient-wise on the torus.
pub fn polynomial_wrapping_sub_assign(p: &mut Vec<u64>, q: &Vec<u64>)
    requires
        old(p).len() == q.len(),
    ensures
        final(p)@ == poly_sub(old(p)@, q@),
{
    let n = p.len();
    let mut i: usize = 0;
    while i < n
        invariant
            n == p.len() == q.len() == old(p).len(),
            i <= n,
            forall|j: int| 0 <= j < i ==> #[trigger] p@[j] == t64(old(p)@[j] - q@[j]),
            forall|j: int| i <= j < n ==> #[trigger] p@[j] == old(p)@[j],
        decreases n - i,
    {
        proof {
            lemma_wrapping_sub(p@[i as int], q@[i as int]);
        }
        let v = p[i].wrapping_sub(q[i]);
        p.set(i, v);
        i = i + 1;
    }
    assert(p@ =~= poly_sub(old(p)@, q@));
}

/// The negacyclic product `a * b` in `Z_{2^64}[X] / (X^N + 1)`, computed exactly.
pub fn polynomial_wrapping_mul(a: &Vec<u64>, b: &Vec<u64>) -> (r: Vec<u64>)
    requires
        a.len() == b.len(),
    ensures
        r@ == poly_mul(a@, b@),
{
    let n = a.len();
    let mut r: Vec<u64> = Vec::with_capacity(n);
    let mut j: usize = 0;
    while j < n
        invariant
            n == a.len() == b.len(),
            j <= n,
            r.len() == j,
            forall|k: int| 0 <= k < j ==> #[trigger] r@[k] == t64(negacyclic_sum(a@, b@, k, n as int)),
        decreases n - j,
    {
        let mut acc: u64 = 0;
        let mut i: usize = 0;
        proof {
            lemma_t64_bounds(0);
            lemma_small_mod(0, torus() as nat);
        }
        while i < n
            invariant
                n == a.len() == b.len(),
                j < n,
                i <= n,
                acc == t64(negacyclic_sum(a@, b@, j as int, i as int)),
            decreases n - i,
        {
            let ghost s = negacyclic_sum(a@, b@, j as int, i as int);
            if i <= j {
                let prod = a[i].wrapping_mul(b[j - i]);
                proof {
                    lemma_wrapping_mul(a@[i as int], b@[j - i]);
                    lemma_wrapping_add(acc, prod);
                    lemma_t64_add(s, a@[i as int] * b@[j - i]);
                }
                acc = acc.wrapping_add(prod);
            } else {
                let prod = a[i].wrapping_mul(b[n - (i - j)]);
                proof {
                    lemma_wrapping_mul(a@[i as int], b@[j + n - i]);
                    lemma_wrapping_sub(acc, prod);
                    lemma_t64_add(s, a@[i as int] * b@[j + n - i]);
                }
                acc = acc.wrapping_sub(prod);
            }
            i = i + 1;
        }
        r.push(acc);
        j = j + 1;
    }
    assert(r@ =~= poly_mul(a@, b@));
    r
}

} // verus!
