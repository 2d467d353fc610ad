//! LWE ciphertexts and their linear algebra.
//!
//! An LWE ciphertext of dimension `n` is the vector `(a_0, .., a_{n-1}, b)` of `n + 1`
//! integers modulo the ciphertext modulus `q`. Every operation here acts coefficient-wise
//! modulo `q`; the results are stated exactly in the `ensures` clauses.
use crate::arith::{lemma_wrapping_add, lemma_wrapping_mul, lemma_wrapping_sub, t64};
use crate::modulus::CiphertextModulus;
use vstd::arithmetic::div_mod::*;
use vstd::prelude::*;

verus! {

/// An encoded message, added to a ciphertext's body.
#[derive(Clone, Copy, Debug, PartialEq, Eq, Structural)]
pub struct Plaintext(pub u64);

/// An unencrypted integer, multiplied into a ciphertext.
#[derive(Clone, Copy, Debug, PartialEq, Eq, Structural)]
pub struct Cleartext(pub u64);

/// `(a + b) mod q`.
pub open spec fn add_mod(a: u64, b: u64, q: nat) -> u64 {
    ((a + b) % (q as int)) as u64
}

/// `(a - b) mod q`.
pub open spec fn sub_mod(a: u64, b: u64, q: nat) -> u64 {
    ((a - b) % (q as int)) as u64
}

/// An LWE ciphertext: mask coefficients followed by the body, all modulo `ciphertext_modulus`.
#[derive(Clone, Debug)]
pub struct LweCiphertext {
    pub data: Vec<u64>,
    pub ciphertext_modulus: CiphertextModulus,
}

impl LweCiphertext {
    pub open spec fn wf(&self) -> bool {
        self.data.len() >= 1 && self.ciphertext_modulus.wf()
    }

    /// The coefficients `(a_0, .., a_{n-1}, b)`.
    pub open spec fn view(&self) -> Seq<u64> {
        self.data@
    }

    pub open spec fn body(&self) -> u64 {
        self.data@.last()
    }

    pub open spec fn modulus(&self) -> nat {
        self.ciphertext_modulus.value()
    }

    /// A ciphertext of `lwe_size` coefficients (dimension `lwe_size - 1`), each set to `fill`.
    pub fn new(fill: u64, lwe_size: usize, ciphertext_modulus: CiphertextModulus) -> (r: Self)
        requires
            lwe_size >= 1,
            ciphertext_modulus.wf(),
        ensures
            r.wf(),
            r.data@ == Seq::new(lwe_size as nat, |i: int| fill),
            r.ciphertext_modulus == ciphertext_modulus,
    {
        let mut data: Vec<u64> = Vec::new();
        let mut i: usize = 0;
        while i < lwe_size
            invariant
                i <= lwe_size,
                data@ == Seq::new(i as nat, |j: int| fill),
            decreases lwe_size - i,
        {
            data.push(fill);
            i = i + 1;
            assert(data@ =~= Seq::new(i as nat, |j: int| fill));
        }
        LweCiphertext { data, ciphertext_modulus }
    }

    /// Wraps `data` (mask then body) as a ciphertext.
    pub fn from_container(data: Vec<u64>, ciphertext_modulus: CiphertextModulus) -> (r: Self)
        requires
            data.len() >= 1,
            ciphertext_modulus.wf(),
        ensures
            r.wf(),
            r.data == data,
            r.ciphertext_modulus == ciphertext_modulus,
    {
        LweCiphertext { data, ciphertext_modulus }
    }

    /// The number of coefficients, mask and body together.
    pub fn lwe_size(&self) -> (r: usize)
        ensures
            r == self.data.len(),
    {
        self.data.len()
    }

    /// The dimension `n` of the mask.
    pub fn lwe_dimension(&self) -> (r: usize)
        requires
            self.wf(),
        ensures
            r == self.data.len() - 1,
    {
        self.data.len() - 1
    }

    pub fn ciphertext_modulus(&self) -> (r: CiphertextModulus)
        ensures
            r == self.ciphertext_modulus,
    {
        self.ciphertext_modulus
    }

    pub fn get_body(&self) -> (r: u64)
        requires
            self.wf(),
        ensures
            r == self.body(),
    {
        self.data[self.data.len() - 1]
    }
}

/// `(a + b) mod q`, widening to `u128` when `q` is not native.
fn add_coeff(a: u64, b: u64, m: CiphertextModulus, q: u128) -> (r: u64)
    requires
        m.wf(),
        q as nat == m.value(),
    ensures
        r == add_mod(a, b, m.value()),
{
    proof {
        m.lemma_value_bounds();
    }
    if m.is_native_modulus() {
        proof {
            lemma_wrapping_add(a, b);
        }
        a.wrapping_add(b)
    } else {
        let wide: u128 = (a as u128 + b as u128) % q;
        wide as u64
    }
}

/// `(a - b) mod q`, widening to `u128` when `q` is not native.
fn sub_coeff(a: u64, b: u64, m: CiphertextModulus, q: u128) -> (r: u64)
    requires
        m.wf(),
        q as nat == m.value(),
    ensures
        r == sub_mod(a, b, m.value()),
{
    proof {
        m.lemma_value_bounds();
    }
    if m.is_native_modulus() {
        proof {
            lemma_wrapping_sub(a, b);
        }
        a.wrapping_sub(b)
    } else {
        let bm: u128 = b as u128 % q;
        let wide: u128 = (a as u128 + (q - bm)) % q;
        proof {
            lemma_mod_bound(b as int, q as int);
            lemma_fundamental_div_mod(b as int, q as int);
            let k = b as int / q as int;
            assert(a + (q - bm) == (a - b) + (k + 1) * q) by (nonlinear_arith)
                requires
                    b == k * q + bm,
            ;
            lemma_mod_multiples_vanish(k + 1, a - b, q as int);
        }
        wide as u64
    }
}

/// `lhs <- lhs + rhs`, coefficient-wise modulo the common ciphertext modulus.
pub fn lwe_ciphertext_add_assign(lhs: &mut LweCiphertext, rhs: &LweCiphertext)
    requires
        old(lhs).wf(),
        old(lhs).ciphertext_modulus == rhs.ciphertext_modulus,
        old(lhs).data.len() == rhs.data.len(),
    ensures
        final(lhs).wf(),
        final(lhs).ciphertext_modulus == old(lhs).ciphertext_modulus,
        final(lhs).data.len() == old(lhs).data.len(),
        forall|i: int|
            0 <= i < rhs.data.len() ==> #[trigger] final(lhs).data@[i] == add_mod(
                old(lhs).data@[i],
                rhs.data@[i],
                rhs.modulus(),
            ),
{
    let m = lhs.ciphertext_modulus;
    let q = m.get();
    let n = lhs.data.len();
    let mut i: usize = 0;
    while i < n
        invariant
            n == lhs.data.len() == rhs.data.len(),
            i <= n,
            m == rhs.ciphertext_modulus,
            m == lhs.ciphertext_modulus,
            m.wf(),
            q as nat == m.value(),
            forall|j: int| 0 <= j < i ==> #[trigger] lhs.data@[j] == add_mod(old(lhs).data@[j], rhs.data@[j], m.value()),
            forall|j: int| i <= j < n ==> #[trigger] lhs.data@[j] == old(lhs).data@[j],
        decreases n - i,
    {
        let v = add_coeff(lhs.data[i], rhs.data[i], m, q);
        lhs.data.set(i, v);
        i = i + 1;
    }
}

/// `output <- lhs + rhs`, coefficient-wise modulo the common ciphertext modulus.
pub fn lwe_ciphertext_add(output: &mut LweCiphertext, lhs: &LweCiphertext, rhs: &LweCiphertext)
    requires
        old(output).wf(),
        lhs.ciphertext_modulus == rhs.ciphertext_modulus,
        old(output).ciphertext_modulus == rhs.ciphertext_modulus,
        old(output).data.len() == lhs.data.len() == rhs.data.len(),
    ensures
        final(output).wf(),
        final(output).ciphertext_modulus == old(output).ciphertext_modulus,
        final(output).data.len() == old(output).data.len(),
        forall|i: int|
            0 <= i < rhs.data.len() ==> #[trigger] final(output).data@[i] == add_mod(
                lhs.data@[i],
                rhs.data@[i],
                rhs.modulus(),
            ),
{
    let m = rhs.ciphertext_modulus;
    let q = m.get();
    let n = output.data.len();
    let mut i: usize = 0;
    while i < n
        invariant
            n == output.data.len() == lhs.data.len() == rhs.data.len(),
            i <= n,
            m == rhs.ciphertext_modulus,
            m == output.ciphertext_modulus,
            m.wf(),
            q as nat == m.value(),
            forall|j: int| 0 <= j < i ==> #[trigger] output.data@[j] == add_mod(lhs.data@[j], rhs.data@[j], m.value()),
        decreases n - i,
    {
        let v = add_coeff(lhs.data[i], rhs.data[i], m, q);
        output.data.set(i, v);
        i = i + 1;
    }
}

/// `lhs <- lhs - rhs`, coefficient-wise modulo the common ciphertext modulus.
pub fn lwe_ciphertext_sub_assign(lhs: &mut LweCiphertext, rhs: &LweCiphertext)
    requires
        old(lhs).wf(),
        old(lhs).ciphertext_modulus == rhs.ciphertext_modulus,
        old(lhs).data.len() == rhs.data.len(),
    ensures
        final(lhs).wf(),
        final(lhs).ciphertext_modulus == old(lhs).ciphertext_modulus,
        final(lhs).data.len() == old(lhs).data.len(),
        forall|i: int|
            0 <= i < rhs.data.len() ==> #[trigger] final(lhs).data@[i] == sub_mod(
                old(lhs).data@[i],
                rhs.data@[i],
                rhs.modulus(),
            ),
{
    let m = lhs.ciphertext_modulus;
    let q = m.get();
    let n = lhs.data.len();
    let mut i: usize = 0;
    while i < n
        invariant
            n == lhs.data.len() == rhs.data.len(),
            i <= n,
            m == rhs.ciphertext_modulus,
            m == lhs.ciphertext_modulus,
            m.wf(),
            q as nat == m.value(),
            forall|j: int| 0 <= j < i ==> #[trigger] lhs.data@[j] == sub_mod(old(lhs).data@[j], rhs.data@[j], m.value()),
            forall|j: int| i <= j < n ==> #[trigger] lhs.data@[j] == old(lhs).data@[j],
        decreases n - i,
    {
        let v = sub_coeff(lhs.data[i], rhs.data[i], m, q);
        lhs.data.set(i, v);
        i = i + 1;
    }
}

/// `output <- lhs - rhs`, coefficient-wise modulo the common ciphertext modulus.
pub fn lwe_ciphertext_sub(output: &mut LweCiphertext, lhs: &LweCiphertext, rhs: &LweCiphertext)
    requires
        old(output).wf(),
        lhs.ciphertext_modulus == rhs.ciphertext_modulus,
        old(output).ciphertext_modulus == rhs.ciphertext_modulus,
        old(output).data.len() == lhs.data.len() == rhs.data.len(),
    ensures
        final(output).wf(),
        final(output).ciphertext_modulus == old(output).ciphertext_modulus,
        final(output).data.len() == old(output).data.len(),
        forall|i: int|
            0 <= i < rhs.data.len() ==> #[trigger] final(output).data@[i] == sub_mod(
                lhs.data@[i],
                rhs.data@[i],
                rhs.modulus(),
            ),
{
    let m = rhs.ciphertext_modulus;
    let q = m.get();
    let n = output.data.len();
    let mut i: usize = 0;
    while i < n
        invariant
            n == output.data.len() == lhs.data.len() == rhs.data.len(),
            i <= n,
            m == rhs.ciphertext_modulus,
            m == output.ciphertext_modulus,
            m.wf(),
            q as nat == m.value(),
            forall|j: int| 0 <= j < i ==> #[trigger] output.data@[j] == sub_mod(lhs.data@[j], rhs.data@[j], m.value()),
        decreases n - i,
    {
        let v = sub_coeff(lhs.data[i], rhs.data[i], m, q);
        output.data.set(i, v);
        i = i + 1;
    }
}

/// Adds an encoded message to the body: `b <- (b + p) mod q`; the mask is unchanged.
pub fn lwe_ciphertext_plaintext_add_assign(lhs: &mut LweCiphertext, rhs: Plaintext)
    requires
        old(lhs).wf(),
    ensures
        final(lhs).wf(),
        final(lhs).ciphertext_modulus == old(lhs).ciphertext_modulus,
        final(lhs).data@ == old(lhs).data@.update(
            old(lhs).data.len() - 1,
            add_mod(old(lhs).body(), rhs.0, old(lhs).modulus()),
        ),
{
    let m = lhs.ciphertext_modulus;
    let q = m.get();
    let last = lhs.data.len() - 1;
    let v = add_coeff(lhs.data[last], rhs.0, m, q);
    lhs.data.set(last, v);
}

/// Negates every coefficient: `c <- -c mod 2^64`. Only the native modulus is supported.
pub fn lwe_ciphertext_opposite_assign(ct: &mut LweCiphertext)
    requires
        old(ct).wf(),
        old(ct).ciphertext_modulus.is_native(),
    ensures
        final(ct).wf(),
        final(ct).ciphertext_modulus == old(ct).ciphertext_modulus,
        final(ct).data.len() == old(ct).data.len(),
        forall|i: int|
            0 <= i < old(ct).data.len() ==> #[trigger] final(ct).data@[i] == t64(
                -old(ct).data@[i],
            ),
{
    let n = ct.data.len();
    let mut i: usize = 0;
    while i < n
        invariant
            n == ct.data.len(),
            i <= n,
            ct.ciphertext_modulus == old(ct).ciphertext_modulus,
            forall|j: int| 0 <= j < i ==> #[trigger] ct.data@[j] == t64(-old(ct).data@[j]),
            forall|j: int| i <= j < n ==> #[trigger] ct.data@[j] == old(ct).data@[j],
        decreases n - i,
    {
        let x = ct.data[i];
        proof {
            lemma_wrapping_sub(0, x);
        }
        ct.data.set(i, 0u64.wrapping_sub(x));
        i = i + 1;
    }
}

/// Scales every coefficient: `c <- c * k mod 2^64`. Only the native modulus is supported.
pub fn lwe_ciphertext_cleartext_mul_assign(lhs: &mut LweCiphertext, rhs: Cleartext)
    requires
        old(lhs).wf(),
        old(lhs).ciphertext_modulus.is_native(),
    ensures
        final(lhs).wf(),
        final(lhs).ciphertext_modulus == old(lhs).ciphertext_modulus,
        final(lhs).data.len() == old(lhs).data.len(),
        forall|i: int|
            0 <= i < old(lhs).data.len() ==> #[trigger] final(lhs).data@[i] == t64(
                old(lhs).data@[i] * rhs.0,
            ),
{
    let n = lhs.data.len();
    let mut i: usize = 0;
    while i < n
        invariant
            n == lhs.data.len(),
            i <= n,
            lhs.ciphertext_modulus == old(lhs).ciphertext_modulus,
            forall|j: int| 0 <= j < i ==> #[trigger] lhs.data@[j] == t64(old(lhs).data@[j] * rhs.0),
            forall|j: int| i <= j < n ==> #[trigger] lhs.data@[j] == old(lhs).data@[j],
        decreases n - i,
    {
        let x = lhs.data[i];
        proof {
            lemma_wrapping_mul(x, rhs.0);
        }
        lhs.data.set(i, x.wrapping_mul(rhs.0));
        i = i + 1;
    }
}

/// `output <- lhs * k mod 2^64`. Only the native modulus is supported.
pub fn lwe_ciphertext_cleartext_mul(output: &mut LweCiphertext, lhs: &LweCiphertext, rhs: Cleartext)
    requires
        old(output).wf(),
        old(output).ciphertext_modulus.is_native(),
        old(output).data.len() == lhs.data.len(),
    ensures
        final(output).wf(),
        final(output).ciphertext_modulus == old(output).ciphertext_modulus,
        final(output).data.len() == lhs.data.len(),
        forall|i: int|
            0 <= i < lhs.data.len() ==> #[trigger] final(output).data@[i] == t64(
                lhs.data@[i] * rhs.0,
            ),
{
    let n = lhs.data.len();
    let mut i: usize = 0;
    while i < n
        invariant
            n == lhs.data.len() == output.data.len(),
            i <= n,
            output.ciphertext_modulus == old(output).ciphertext_modulus,
            forall|j: int| 0 <= j < i ==> #[trigger] output.data@[j] == lhs.data@[j],
        decreases n - i,
    {
        output.data.set(i, lhs.data[i]);
        i = i + 1;
    }
    assert(output.data@ =~= lhs.data@);
    lwe_ciphertext_cleartext_mul_assign(output, rhs);
}

} // verus!
