//! Short integers: a message modulo `p` (the message modulus) with room for carries up to
//! `p * c` (`c` the carry modulus), encoded as `m * 2^63 / (p * c)` so the top bit stays
//! free. Functions of the message are evaluated by bootstrapping through a lookup table.
use crate::arith::{lemma_t64_add, lemma_wrapping_mul, lemma_wrapping_sub, t64, torus};
use crate::boolean::ONE_HALF;
use crate::encryption::{decrypt_lwe_ciphertext, encrypt_lwe_ciphertext, lwe_phase};
use crate::ggsw::GgswShape;
use crate::glwe::GlweCiphertext;
use crate::keys::{ClientKey, ServerKey};
use crate::lwe::{lwe_ciphertext_plaintext_add_assign, LweCiphertext, Plaintext};
use crate::modulus::CiphertextModulus;
use crate::random::{is_small, Generator};
use vstd::arithmetic::div_mod::*;
use vstd::prelude::*;

verus! {

/// Message and carry moduli that a ciphertext can use: `p >= 2`, `c >= 1`, `p * c <= 2^29`.
pub open spec fn valid_moduli(p: u64, c: u64) -> bool {
    2 <= p && 1 <= c && p * c <= 0x2000_0000
}

pub proof fn lemma_valid_moduli(p: u64, c: u64)
    requires
        valid_moduli(p, c),
    ensures
        2 <= p <= p * c <= 0x2000_0000,
{
    assert(p <= p * c) by (nonlinear_arith)
        requires
            c >= 1,
            p >= 0,
    ;
}

/// `2^63 / (p * c)`: the scale of messages.
pub open spec fn shortint_delta(p: u64, c: u64) -> u64 {
    (ONE_HALF as int / (p * c)) as u64
}

/// The message and carry of the phase `phase`: the nearest multiple of the scale, modulo `p * c`.
pub open spec fn decode(phase: u64, p: u64, c: u64) -> u64 {
    let delta = shortint_delta(p, c);
    (((phase + delta / 2) / (delta as int)) % (p * c)) as u64
}

/// Coefficient `t` of the body of the accumulator of `table`: the polynomial holds
/// `table[i] * delta` on the `i`-th box of `N / (p * c)` coefficients, shifted down by half a
/// box, with the wrapped-around half box negated.
pub open spec fn lut_coefficient(table: Seq<u64>, n: int, box_size: int, delta: u64, t: int) -> u64 {
    let u = t + box_size / 2;
    if u < n {
        t64(table[u / box_size] * delta)
    } else {
        t64(-(table[(u - n) / box_size] * delta))
    }
}

/// The trivial GLWE accumulator of `table`: zero masks and the lookup-table body.
pub open spec fn lut_accumulator(table: Seq<u64>, shape: GgswShape, p: u64, c: u64) -> Seq<u64> {
    let n = shape.polynomial_size as int;
    let masks = (shape.glwe_size - 1) * n;
    Seq::new(
        shape.glwe_len(),
        |x: int|
            if x < masks {
                0u64
            } else {
                lut_coefficient(table, n, n / (p * c), shortint_delta(p, c), x - masks)
            },
    )
}

/// An encrypted short integer, with `degree` the largest value its message may hold.
#[derive(Clone, Debug)]
pub struct ShortintCiphertext {
    pub ct: LweCiphertext,
    pub degree: u64,
    pub message_modulus: u64,
    pub carry_modulus: u64,
}

impl ShortintCiphertext {
    pub open spec fn wf(&self) -> bool {
        &&& self.ct.wf()
        &&& self.ct.ciphertext_modulus.is_native()
        &&& valid_moduli(self.message_modulus, self.carry_modulus)
        &&& self.degree <= 0xffff_ffff
    }
}

/// The scale `2^63 / (p * c)`.
pub fn delta_exec(p: u64, c: u64) -> (r: u64)
    requires
        valid_moduli(p, c),
    ensures
        r == shortint_delta(p, c),
        r >= 0x2_0000_0000,
{
    proof {
        lemma_valid_moduli(p, c);
        lemma_div_is_ordered_by_denominator(ONE_HALF as int, p * c, 0x4000_0000);
    }
    ONE_HALF / (p * c)
}

/// Whether subtracting `scalar` directly keeps the degree within `p * c - 1`.
pub fn is_scalar_sub_possible(ct: &ShortintCiphertext, scalar: u8) -> (r: bool)
    requires
        ct.wf(),
    ensures
        r == (ct.degree + ((256 - scalar as int) % 256) % (ct.message_modulus as int) < ct.message_modulus
            * ct.carry_modulus),
{
    let neg_scalar = ((256 - scalar as u64) % 256) % ct.message_modulus;
    proof {
        lemma_valid_moduli(ct.message_modulus, ct.carry_modulus);
    }
    ct.degree + neg_scalar < ct.message_modulus * ct.carry_modulus
}

/// Draws the random values of encryptions.
#[derive(Clone, Debug)]
pub struct ShortintEngine {
    pub generator: Generator,
}

impl ShortintEngine {
    pub fn new(seed: u64) -> (r: Self)
        ensures
            r.generator.state == seed,
    {
        ShortintEngine { generator: Generator::new(seed) }
    }

    /// Encrypts `message mod p`; the carries start empty.
    pub fn encrypt(
        &mut self,
        client_key: &ClientKey,
        message: u64,
        message_modulus: u64,
        carry_modulus: u64,
    ) -> (r: ShortintCiphertext)
        requires
            client_key.wf(),
            valid_moduli(message_modulus, carry_modulus),
        ensures
            r.wf(),
            r.message_modulus == message_modulus,
            r.carry_modulus == carry_modulus,
            r.degree == message % message_modulus,
            r.ct.data.len() == client_key.parameters.lwe_dimension + 1,
            exists|e: u64|
                is_small(e, client_key.parameters.lwe_noise_log as nat) && lwe_phase(
                    r.ct.data@,
                    client_key.glwe_secret_key.data@,
                ) == #[trigger] t64(
                    (message % message_modulus) * shortint_delta(message_modulus, carry_modulus) + e,
                ),
    {
        let m = message % message_modulus;
        let delta = delta_exec(message_modulus, carry_modulus);
        proof {
            lemma_valid_moduli(message_modulus, carry_modulus);
            assert(m * delta <= message_modulus * delta) by (nonlinear_arith)
                requires
                    m < message_modulus,
            ;
            lemma_fundamental_div_mod(ONE_HALF as int, (message_modulus * carry_modulus) as int);
            assert(message_modulus * delta <= (message_modulus * carry_modulus) * delta) by (nonlinear_arith)
                requires
                    carry_modulus >= 1,
            ;
            client_key.parameters.lemma_dimensions();
        }
        let key = client_key.glwe_secret_key.as_lwe_secret_key();
        let ct = encrypt_lwe_ciphertext(&key, m * delta, client_key.parameters.lwe_noise_log, &mut self.generator);
        ShortintCiphertext { ct, degree: m, message_modulus, carry_modulus }
    }

    /// The message and the carries of `ct`.
    pub fn decrypt_message_and_carry(&self, client_key: &ClientKey, ct: &ShortintCiphertext) -> (r: u64)
        requires
            client_key.wf(),
            ct.wf(),
            ct.ct.data.len() == client_key.parameters.lwe_dimension + 1,
        ensures
            r == decode(
                lwe_phase(ct.ct.data@, client_key.glwe_secret_key.data@),
                ct.message_modulus,
                ct.carry_modulus,
            ),
    {
        let key = client_key.glwe_secret_key.as_lwe_secret_key();
        let phase = decrypt_lwe_ciphertext(&key, &ct.ct);
        let delta = delta_exec(ct.message_modulus, ct.carry_modulus);
        proof {
            lemma_valid_moduli(ct.message_modulus, ct.carry_modulus);
        }
        let total = ct.message_modulus * ct.carry_modulus;
        let v: u128 = ((phase as u128 + (delta / 2) as u128) / delta as u128) % total as u128;
        proof {
            lemma_mod_bound(((phase + delta / 2) / (delta as int)) as int, total as int);
        }
        v as u64
    }

    /// The message of `ct`, without its carries.
    pub fn decrypt(&self, client_key: &ClientKey, ct: &ShortintCiphertext) -> (r: u64)
        requires
            client_key.wf(),
            ct.wf(),
            ct.ct.data.len() == client_key.parameters.lwe_dimension + 1,
        ensures
            r == decode(
                lwe_phase(ct.ct.data@, client_key.glwe_secret_key.data@),
                ct.message_modulus,
                ct.carry_modulus,
            ) % ct.message_modulus,
    {
        self.decrypt_message_and_carry(client_key, ct) % ct.message_modulus
    }

    /// The accumulator that maps a message `x < p * c` to `table[x]`.
    pub fn generate_accumulator(
        server_key: &ServerKey,
        message_modulus: u64,
        carry_modulus: u64,
        table: &Vec<u64>,
    ) -> (r: GlweCiphertext)
        requires
            server_key.wf(),
            valid_moduli(message_modulus, carry_modulus),
            message_modulus * carry_modulus <= server_key.parameters.polynomial_size,
            server_key.parameters.polynomial_size % (message_modulus * carry_modulus) as usize == 0,
            table.len() == message_modulus * carry_modulus,
        ensures
            r.wf(),
            r.ciphertext_modulus.is_native(),
            r.polynomial_size == server_key.parameters.polynomial_size,
            r.data.len() == server_key.parameters.shape().glwe_len(),
            r.data@ == lut_accumulator(table@, server_key.parameters.shape(), message_modulus, carry_modulus),
    {
        let shape = server_key.parameters.shape_exec();
        let n = shape.polynomial_size;
        proof {
            lemma_valid_moduli(message_modulus, carry_modulus);
        }
        let total = (message_modulus * carry_modulus) as usize;
        let box_size = n / total;
        let half = box_size / 2;
        let delta = delta_exec(message_modulus, carry_modulus);
        proof {
            shape.lemma_sizes();
            lemma_fundamental_div_mod(n as int, total as int);
            assert(box_size >= 1) by {
                lemma_div_is_ordered(total as int, n as int, total as int);
                lemma_div_by_self(total as int);
            }
            assert((shape.glwe_size - 1) * n <= shape.glwe_len()) by (nonlinear_arith)
                requires
                    shape.glwe_len() == shape.glwe_size * n,
                    shape.glwe_size >= 1,
            ;
            assert(shape.glwe_len() == (shape.glwe_size - 1) * n + n) by (nonlinear_arith)
                requires
                    shape.glwe_len() == shape.glwe_size * n,
            ;
        }
        let masks = (shape.glwe_size - 1) * n;
        let glwe_len = shape.glwe_len_exec();
        let mut data: Vec<u64> = Vec::with_capacity(glwe_len);
        let mut x: usize = 0;
        while x < masks
            invariant
                x <= masks,
                data.len() == x,
                forall|y: int| 0 <= y < x ==> #[trigger] data@[y] == 0u64,
            decreases masks - x,
        {
            data.push(0);
            x = x + 1;
        }
        let mut t: usize = 0;
        while t < n
            invariant
                n == shape.polynomial_size,
                shape == server_key.parameters.shape(),
                masks == (shape.glwe_size - 1) * n,
                glwe_len == shape.glwe_len() == masks + n,
                total == message_modulus * carry_modulus,
                table.len() == total,
                n == box_size * total,
                box_size >= 1,
                box_size == n as int / total as int,
                half == box_size / 2,
                delta == shortint_delta(message_modulus, carry_modulus),
                t <= n,
                n <= 0x4000_0000,
                data.len() == masks + t,
                forall|y: int| 0 <= y < masks ==> #[trigger] data@[y] == 0u64,
                forall|y: int|
                    masks <= y < masks + t ==> #[trigger] data@[y] == lut_coefficient(
                        table@,
                        n as int,
                        box_size as int,
                        delta,
                        y - masks,
                    ),
            decreases n - t,
        {
            let u = t + half;
            let v = if u < n {
                proof {
                    lemma_div_is_ordered(u as int, (box_size * total) as int, box_size as int);
                    assert(((u as int) / (box_size as int)) < total) by {
                        lemma_div_by_multiple(total as int, box_size as int);
                        lemma_fundamental_div_mod(u as int, box_size as int);
                        lemma_mod_bound(u as int, box_size as int);
                        if ((u as int) / (box_size as int)) >= total {
                            assert(box_size * (((u as int) / (box_size as int))) >= box_size * total) by (nonlinear_arith)
                                requires
                                    ((u as int) / (box_size as int)) >= total,
                                    box_size >= 1,
                            ;
                        }
                    }
                    lemma_wrapping_mul(table@[((u as int) / (box_size as int))], delta);
                }
                table[u / box_size].wrapping_mul(delta)
            } else {
                proof {
                    assert(u - n < box_size);
                    lemma_basic_div((u - n) as int, (box_size as int));
                    lemma_wrapping_mul(table@[0], delta);
                    lemma_wrapping_sub(0, t64(table@[0] * delta));
                    lemma_t64_add(0, table@[0] * delta);
                    lemma_small_mod(0, torus() as nat);
                }
                0u64.wrapping_sub(table[(u - n) / box_size].wrapping_mul(delta))
            };
            data.push(v);
            t = t + 1;
        }
        proof {
            assert(data@ =~= lut_accumulator(table@, shape, message_modulus, carry_modulus));
            lemma_mod_multiples_basic(shape.glwe_size as int, n as int);
            vstd::arithmetic::mul::lemma_mul_is_commutative(shape.glwe_size as int, n as int);
        }
        GlweCiphertext::from_container(data, n, CiphertextModulus::new_native())
    }

    /// Replaces the ciphertext of `ct` by its bootstrap through `accumulator`; the degree is
    /// left to the caller.
    pub fn apply_lookup_table(server_key: &ServerKey, ct: &mut ShortintCiphertext, accumulator: &GlweCiphertext)
        requires
            server_key.wf(),
            old(ct).wf(),
            old(ct).ct.data.len() == server_key.parameters.lwe_dimension + 1,
            accumulator.wf(),
            accumulator.ciphertext_modulus.is_native(),
            accumulator.polynomial_size == server_key.parameters.polynomial_size,
            accumulator.data.len() == server_key.parameters.shape().glwe_len(),
        ensures
            final(ct).wf(),
            final(ct).degree == old(ct).degree,
            final(ct).message_modulus == old(ct).message_modulus,
            final(ct).carry_modulus == old(ct).carry_modulus,
            final(ct).ct.data.len() == old(ct).ct.data.len(),
            final(ct).ct.data@ == server_key.pbs_output(old(ct).ct.data@, accumulator.data@),
    {
        let out = server_key.programmable_bootstrap(&ct.ct, accumulator);
        ct.ct = out;
    }

    /// Subtracts `scalar` without bootstrapping: adds `(-scalar mod p) * delta` to the body
    /// and raises the degree by `-scalar mod p`.
    pub fn unchecked_scalar_sub_assign(&mut self, ct: &mut ShortintCiphertext, scalar: u8)
        requires
            old(ct).wf(),
            old(ct).degree + old(ct).message_modulus <= 0xffff_ffff,
        ensures
            final(ct).wf(),
            final(ct).message_modulus == old(ct).message_modulus,
            final(ct).carry_modulus == old(ct).carry_modulus,
            final(ct).degree == old(ct).degree + ((256 - scalar as int) % 256) % (old(ct).message_modulus as int),
            final(ct).ct.ciphertext_modulus == old(ct).ct.ciphertext_modulus,
            final(ct).ct.data@ == old(ct).ct.data@.update(
                old(ct).ct.data.len() - 1,
                t64(
                    old(ct).ct.body() + (((256 - scalar as int) % 256) % (old(ct).message_modulus as int))
                        * shortint_delta(old(ct).message_modulus, old(ct).carry_modulus),
                ),
            ),
    {
        let neg_scalar = ((256 - scalar as u64) % 256) % ct.message_modulus;
        let delta = delta_exec(ct.message_modulus, ct.carry_modulus);
        proof {
            lemma_valid_moduli(ct.message_modulus, ct.carry_modulus);
            assert(neg_scalar * delta <= ct.message_modulus * delta) by (nonlinear_arith)
                requires
                    neg_scalar < ct.message_modulus,
            ;
            lemma_fundamental_div_mod(ONE_HALF as int, (ct.message_modulus * ct.carry_modulus) as int);
            assert(ct.message_modulus * delta <= (ct.message_modulus * ct.carry_modulus) * delta) by (nonlinear_arith)
                requires
                    ct.carry_modulus >= 1,
            ;
            crate::arith::lemma_pow2_64();
        }
        lwe_ciphertext_plaintext_add_assign(&mut ct.ct, Plaintext(neg_scalar * delta));
        ct.degree = ct.degree + neg_scalar;
    }

    /// `ct - scalar` without bootstrapping, as a new ciphertext.
    pub fn unchecked_scalar_sub(&mut self, ct: &ShortintCiphertext, scalar: u8) -> (r: ShortintCiphertext)
        requires
            ct.wf(),
            ct.degree + ct.message_modulus <= 0xffff_ffff,
        ensures
            r.wf(),
            r.message_modulus == ct.message_modulus,
            r.carry_modulus == ct.carry_modulus,
            r.degree == ct.degree + ((256 - scalar as int) % 256) % (ct.message_modulus as int),
            r.ct.data@ == ct.ct.data@.update(
                ct.ct.data.len() - 1,
                t64(
                    ct.ct.body() + (((256 - scalar as int) % 256) % (ct.message_modulus as int))
                        * shortint_delta(ct.message_modulus, ct.carry_modulus),
                ),
            ),
    {
        let mut result = copy_ciphertext(ct);
        self.unchecked_scalar_sub_assign(&mut result, scalar);
        result
    }

    /// `ct - scalar mod p`: directly when the degree allows it, otherwise by bootstrapping
    /// through the table `x -> (x - scalar) mod p`, which empties the carries.
    pub fn smart_scalar_sub_assign(&mut self, server_key: &ServerKey, ct: &mut ShortintCiphertext, scalar: u8)
        requires
            server_key.wf(),
            old(ct).wf(),
            old(ct).ct.data.len() == server_key.parameters.lwe_dimension + 1,
            old(ct).message_modulus * old(ct).carry_modulus <= server_key.parameters.polynomial_size,
            server_key.parameters.polynomial_size % (old(ct).message_modulus * old(ct).carry_modulus) as usize == 0,
        ensures
            final(ct).wf(),
            final(ct).message_modulus == old(ct).message_modulus,
            final(ct).carry_modulus == old(ct).carry_modulus,
            final(ct).ct.data.len() == old(ct).ct.data.len(),
            final(ct).degree < old(ct).message_modulus * old(ct).carry_modulus,
            old(ct).degree + ((256 - scalar as int) % 256) % (old(ct).message_modulus as int)
                < old(ct).message_modulus * old(ct).carry_modulus ==> final(ct).ct.data@
                == old(ct).ct.data@.update(
                old(ct).ct.data.len() - 1,
                t64(
                    old(ct).ct.body() + (((256 - scalar as int) % 256) % (old(ct).message_modulus as int))
                        * shortint_delta(old(ct).message_modulus, old(ct).carry_modulus),
                ),
            ),
            old(ct).degree + ((256 - scalar as int) % 256) % (old(ct).message_modulus as int)
                >= old(ct).message_modulus * old(ct).carry_modulus ==> final(ct).ct.data@
                == server_key.pbs_output(
                old(ct).ct.data@,
                lut_accumulator(
                    scalar_sub_table(old(ct).message_modulus, old(ct).carry_modulus, scalar),
                    server_key.parameters.shape(),
                    old(ct).message_modulus,
                    old(ct).carry_modulus,
                ),
            ) && final(ct).degree == old(ct).message_modulus - 1,
    {
        proof {
            lemma_valid_moduli(ct.message_modulus, ct.carry_modulus);
        }
        if is_scalar_sub_possible(ct, scalar) {
            self.unchecked_scalar_sub_assign(ct, scalar);
        } else {
            let p = ct.message_modulus;
            let c = ct.carry_modulus;
            let table = scalar_sub_table_exec(p, c, scalar);
            let acc = Self::generate_accumulator(server_key, p, c, &table);
            Self::apply_lookup_table(server_key, ct, &acc);
            ct.degree = p - 1;
            proof {
                assert(p - 1 < p * c) by (nonlinear_arith)
                    requires
                        c >= 1,
                        p >= 2,
                ;
            }
        }
    }

    /// `ct - scalar mod p` as a new ciphertext; see `smart_scalar_sub_assign`.
    pub fn smart_scalar_sub(&mut self, server_key: &ServerKey, ct: &mut ShortintCiphertext, scalar: u8) -> (r: ShortintCiphertext)
        requires
            server_key.wf(),
            old(ct).wf(),
            old(ct).ct.data.len() == server_key.parameters.lwe_dimension + 1,
            old(ct).message_modulus * old(ct).carry_modulus <= server_key.parameters.polynomial_size,
            server_key.parameters.polynomial_size % (old(ct).message_modulus * old(ct).carry_modulus) as usize == 0,
        ensures
            *final(ct) == *old(ct),
            r.wf(),
            r.message_modulus == old(ct).message_modulus,
            r.carry_modulus == old(ct).carry_modulus,
            r.degree < old(ct).message_modulus * old(ct).carry_modulus,
            old(ct).degree + ((256 - scalar as int) % 256) % (old(ct).message_modulus as int)
                < old(ct).message_modulus * old(ct).carry_modulus ==> r.ct.data@ == old(ct).ct.data@.update(
                old(ct).ct.data.len() - 1,
                t64(
                    old(ct).ct.body() + (((256 - scalar as int) % 256) % (old(ct).message_modulus as int))
                        * shortint_delta(old(ct).message_modulus, old(ct).carry_modulus),
                ),
            ),
            old(ct).degree + ((256 - scalar as int) % 256) % (old(ct).message_modulus as int)
                >= old(ct).message_modulus * old(ct).carry_modulus ==> r.ct.data@ == server_key.pbs_output(
                old(ct).ct.data@,
                lut_accumulator(
                    scalar_sub_table(old(ct).message_modulus, old(ct).carry_modulus, scalar),
                    server_key.parameters.shape(),
                    old(ct).message_modulus,
                    old(ct).carry_modulus,
                ),
            ) && r.degree == old(ct).message_modulus - 1,
    {
        let mut result = copy_ciphertext(ct);
        self.smart_scalar_sub_assign(server_key, &mut result, scalar);
        result
    }
}

/// The table `x -> x / p` over `x < p * c`: the carries.
pub open spec fn carry_table(p: u64, c: u64) -> Seq<u64> {
    Seq::new((p * c) as nat, |x: int| (x / (p as int)) as u64)
}

/// The table `x -> x mod p` over `x < p * c`: the message.
pub open spec fn message_table(p: u64, c: u64) -> Seq<u64> {
    Seq::new((p * c) as nat, |x: int| (x % (p as int)) as u64)
}

fn carry_or_message_table(p: u64, c: u64, carry: bool) -> (r: Vec<u64>)
    requires
        valid_moduli(p, c),
    ensures
        r@ == if carry {
            carry_table(p, c)
        } else {
            message_table(p, c)
        },
{
    proof {
        lemma_valid_moduli(p, c);
    }
    let total = p * c;
    let ghost target = if carry {
        carry_table(p, c)
    } else {
        message_table(p, c)
    };
    let mut r: Vec<u64> = Vec::new();
    let mut x: u64 = 0;
    while x < total
        invariant
            total == p * c,
            valid_moduli(p, c),
            target == if carry {
                carry_table(p, c)
            } else {
                message_table(p, c)
            },
            x <= total,
            r@ == target.subrange(0, x as int),
        decreases total - x,
    {
        if carry {
            r.push(x / p);
        } else {
            r.push(x % p);
        }
        x = x + 1;
        assert(r@ =~= target.subrange(0, x as int));
    }
    assert(r@ =~= target);
    r
}

/// The server key and the moduli of the short integers that it evaluates on.
pub open spec fn lut_compatible(server_key: &ServerKey, p: u64, c: u64) -> bool {
    &&& server_key.wf()
    &&& valid_moduli(p, c)
    &&& p * c <= server_key.parameters.polynomial_size
    &&& server_key.parameters.polynomial_size % (p * c) as usize == 0
}

/// A shortint ciphertext of the server key's dimension.
pub open spec fn fits(server_key: &ServerKey, ct: &ShortintCiphertext) -> bool {
    &&& ct.wf()
    &&& ct.ct.data.len() == server_key.parameters.lwe_dimension + 1
    &&& lut_compatible(server_key, ct.message_modulus, ct.carry_modulus)
}

/// The carries of `ct`, moved down to the message position: bootstraps through `x -> x / p`.
pub fn carry_extract(server_key: &ServerKey, ct: &ShortintCiphertext) -> (r: ShortintCiphertext)
    requires
        fits(server_key, ct),
    ensures
        fits(server_key, &r),
        r.message_modulus == ct.message_modulus,
        r.carry_modulus == ct.carry_modulus,
        r.degree == ct.degree / ct.message_modulus,
        r.ct.data@ == server_key.pbs_output(
            ct.ct.data@,
            lut_accumulator(
                carry_table(ct.message_modulus, ct.carry_modulus),
                server_key.parameters.shape(),
                ct.message_modulus,
                ct.carry_modulus,
            ),
        ),
{
    let table = carry_or_message_table(ct.message_modulus, ct.carry_modulus, true);
    let acc = ShortintEngine::generate_accumulator(server_key, ct.message_modulus, ct.carry_modulus, &table);
    let mut r = copy_ciphertext(ct);
    ShortintEngine::apply_lookup_table(server_key, &mut r, &acc);
    proof {
        lemma_valid_moduli(ct.message_modulus, ct.carry_modulus);
        lemma_div_is_ordered_by_denominator(ct.degree as int, 1, ct.message_modulus as int);
        lemma_div_basics(ct.degree as int);
        lemma_div_pos_is_pos(ct.degree as int, ct.message_modulus as int);
        assert(ct.degree / ct.message_modulus <= ct.degree);
    }
    r.degree = ct.degree / ct.message_modulus;
    r
}

/// The message of `ct` with its carries cleared: bootstraps through `x -> x mod p`.
pub fn message_extract(server_key: &ServerKey, ct: &ShortintCiphertext) -> (r: ShortintCiphertext)
    requires
        fits(server_key, ct),
    ensures
        fits(server_key, &r),
        r.message_modulus == ct.message_modulus,
        r.carry_modulus == ct.carry_modulus,
        r.degree == ct.message_modulus - 1,
        r.ct.data@ == server_key.pbs_output(
            ct.ct.data@,
            lut_accumulator(
                message_table(ct.message_modulus, ct.carry_modulus),
                server_key.parameters.shape(),
                ct.message_modulus,
                ct.carry_modulus,
            ),
        ),
{
    let table = carry_or_message_table(ct.message_modulus, ct.carry_modulus, false);
    let acc = ShortintEngine::generate_accumulator(server_key, ct.message_modulus, ct.carry_modulus, &table);
    let mut r = copy_ciphertext(ct);
    ShortintEngine::apply_lookup_table(server_key, &mut r, &acc);
    proof {
        lemma_valid_moduli(ct.message_modulus, ct.carry_modulus);
    }
    r.degree = ct.message_modulus - 1;
    r
}

/// `ct <- ct + other` without bootstrapping; the degrees add up.
pub fn unchecked_add_assign(ct: &mut ShortintCiphertext, other: &ShortintCiphertext)
    requires
        old(ct).wf(),
        other.wf(),
        old(ct).ct.data.len() == other.ct.data.len(),
        old(ct).degree + other.degree <= 0xffff_ffff,
    ensures
        final(ct).wf(),
        final(ct).message_modulus == old(ct).message_modulus,
        final(ct).carry_modulus == old(ct).carry_modulus,
        final(ct).degree == old(ct).degree + other.degree,
        final(ct).ct.data.len() == old(ct).ct.data.len(),
        forall|i: int|
            0 <= i < other.ct.data.len() ==> #[trigger] final(ct).ct.data@[i] == t64(
                old(ct).ct.data@[i] + other.ct.data@[i],
            ),
{
    proof {
        crate::arith::lemma_pow2_64();
    }
    crate::lwe::lwe_ciphertext_add_assign(&mut ct.ct, &other.ct);
    ct.degree = ct.degree + other.degree;
}

/// `ct <- ct + scalar` without bootstrapping: adds `scalar * delta` to the body and
/// `scalar` to the degree.
pub fn unchecked_scalar_add_assign(ct: &mut ShortintCiphertext, scalar: u64)
    requires
        old(ct).wf(),
        scalar < old(ct).message_modulus * old(ct).carry_modulus,
        old(ct).degree + scalar <= 0xffff_ffff,
    ensures
        final(ct).wf(),
        final(ct).message_modulus == old(ct).message_modulus,
        final(ct).carry_modulus == old(ct).carry_modulus,
        final(ct).degree == old(ct).degree + scalar,
        final(ct).ct.data@ == old(ct).ct.data@.update(
            old(ct).ct.data.len() - 1,
            t64(old(ct).ct.body() + scalar * shortint_delta(old(ct).message_modulus, old(ct).carry_modulus)),
        ),
{
    let delta = delta_exec(ct.message_modulus, ct.carry_modulus);
    proof {
        lemma_valid_moduli(ct.message_modulus, ct.carry_modulus);
        lemma_fundamental_div_mod(ONE_HALF as int, (ct.message_modulus * ct.carry_modulus) as int);
        assert(scalar * delta <= (ct.message_modulus * ct.carry_modulus) * delta) by (nonlinear_arith)
            requires
                scalar < ct.message_modulus * ct.carry_modulus,
        ;
        crate::arith::lemma_pow2_64();
    }
    lwe_ciphertext_plaintext_add_assign(&mut ct.ct, Plaintext(scalar * delta));
    ct.degree = ct.degree + scalar;
}

/// The table `x -> (x - scalar) mod p` over `x < p * c`.
pub open spec fn scalar_sub_table(p: u64, c: u64, scalar: u8) -> Seq<u64> {
    Seq::new((p * c) as nat, |x: int| ((x + p - (scalar as int) % (p as int)) % (p as int)) as u64)
}

fn scalar_sub_table_exec(p: u64, c: u64, scalar: u8) -> (r: Vec<u64>)
    requires
        valid_moduli(p, c),
    ensures
        r@ == scalar_sub_table(p, c, scalar),
{
    proof {
        lemma_valid_moduli(p, c);
    }
    let total = p * c;
    let s = scalar as u64 % p;
    let mut r: Vec<u64> = Vec::new();
    let mut x: u64 = 0;
    while x < total
        invariant
            total == p * c,
            valid_moduli(p, c),
            total <= 0x4000_0000,
            p <= total,
            s == (scalar as int) % (p as int),
            x <= total,
            r@ == scalar_sub_table(p, c, scalar).subrange(0, x as int),
        decreases total - x,
    {
        proof {
            lemma_mod_bound(scalar as int, p as int);
            lemma_mod_bound((x + p - s) as int, p as int);
        }
        r.push((x + p - s) % p);
        x = x + 1;
        assert(r@ =~= scalar_sub_table(p, c, scalar).subrange(0, x as int));
    }
    assert(r@ =~= scalar_sub_table(p, c, scalar));
    r
}

/// A copy of `ct`.
pub fn copy_ciphertext(ct: &ShortintCiphertext) -> (r: ShortintCiphertext)
    ensures
        r.ct.data@ == ct.ct.data@,
        r.ct.ciphertext_modulus == ct.ct.ciphertext_modulus,
        r.degree == ct.degree,
        r.message_modulus == ct.message_modulus,
        r.carry_modulus == ct.carry_modulus,
{
    let data = crate::arith::copy_range(&ct.ct.data, 0, ct.ct.data.len());
    assert(data@ =~= ct.ct.data@);
    ShortintCiphertext {
        ct: LweCiphertext { data, ciphertext_modulus: ct.ct.ciphertext_modulus },
        degree: ct.degree,
        message_modulus: ct.message_modulus,
        carry_modulus: ct.carry_modulus,
    }
}

} // verus!
