//! Radix integers: a vector of short-integer blocks, least significant first, each block
//! holding one digit in base `p` (the message modulus) plus room for carries.
use crate::arith::{lemma_t64_add, t64, torus};
use crate::keys;
use crate::encryption::lwe_phase;
use crate::polynomial::poly_add;
use crate::shortint::{decode, ShortintEngine,
    carry_extract, carry_table, copy_ciphertext, lut_accumulator, message_table, fits, lemma_valid_moduli, lut_compatible, message_extract,
    shortint_delta, unchecked_add_assign, unchecked_scalar_add_assign, valid_moduli, ShortintCiphertext,
};
use vstd::arithmetic::div_mod::*;
use vstd::arithmetic::power::*;
use vstd::prelude::*;

verus! {

/// The largest degree that a block may carry into the propagation of its carries.
pub const MAX_PROPAGATED_DEGREE: u64 = 0x4000_0000;

/// An encrypted radix integer.
#[derive(Clone, Debug)]
pub struct RadixCiphertext {
    pub blocks: Vec<ShortintCiphertext>,
}

/// The degrees of the blocks of `ct`.
pub open spec fn degrees(ct: &RadixCiphertext) -> Seq<u64> {
    Seq::new(ct.blocks.len() as nat, |i: int| ct.blocks[i].degree)
}

/// `ceil(x / p) * p`: what negation adds to a block of degree `x` so that it stays positive.
pub open spec fn neg_z(x: int, p: u64) -> int {
    ((x + p - 1) / (p as int)) * p
}

/// What negating the blocks before block `i` takes from it: `z / p` of the previous block.
pub open spec fn neg_carry_in(degrees: Seq<u64>, p: u64, i: int) -> int
    decreases i,
{
    if i <= 0 {
        0
    } else {
        neg_z(degrees[i - 1] + neg_carry_in(degrees, p, i - 1), p) / (p as int)
    }
}

/// Negation keeps every block's degree within `p * c - 1`.
pub open spec fn neg_possible(degrees: Seq<u64>, p: u64, c: u64) -> bool {
    forall|i: int| 0 <= i < degrees.len() ==> #[trigger] neg_z(degrees[i] + neg_carry_in(degrees, p, i), p) < p * c
}

/// The degrees stay small enough for negation to be carried out.
pub open spec fn neg_bounded(degrees: Seq<u64>, p: u64, c: u64) -> bool {
    forall|i: int|
        0 <= i < degrees.len() ==> #[trigger] neg_carry_in(degrees, p, i) < p * c && degrees[i]
            + neg_carry_in(degrees, p, i) <= MAX_PROPAGATED_DEGREE
}

/// Digit `i` of `scalar` in base `p`.
pub open spec fn scalar_digit(scalar: u64, p: u64, i: nat) -> u64 {
    ((scalar as int / pow(p as int, i)) % (p as int)) as u64
}

/// The integer of base-`p` digits `ds`, least significant first.
pub open spec fn radix_value(ds: Seq<u64>, p: u64, k: int) -> int
    decreases k,
{
    if k <= 0 {
        0
    } else {
        radix_value(ds, p, k - 1) + ds[k - 1] * pow(p as int, (k - 1) as nat)
    }
}

/// Adding the base-`p` digits of `scalar` keeps every block below `p * c`.
pub open spec fn scalar_add_possible(ct: &RadixCiphertext, p: u64, c: u64, scalar: u64) -> bool {
    forall|i: int| 0 <= i < ct.blocks.len() ==> #[trigger] ct.blocks[i].degree + scalar_digit(scalar, p, i as nat) < p * c
}

/// The degree of block `i` after a smart scalar addition: its old degree when the digits
/// fit, else `p - 1` after propagation; plus the digit.
pub open spec fn smart_scalar_add_degree(ct: &RadixCiphertext, p: u64, c: u64, scalar: u64, i: int) -> int {
    (if scalar_add_possible(ct, p, c, scalar) {
        ct.blocks[i].degree as int
    } else {
        p - 1
    }) + scalar_digit(scalar, p, i as nat)
}

/// The coefficients of the blocks of `ct`.
pub open spec fn datas(ct: &RadixCiphertext) -> Seq<Seq<u64>> {
    Seq::new(ct.blocks.len() as nat, |i: int| ct.blocks[i].ct.data@)
}

impl ServerKey {
    /// The carry of the block ciphertext `d`: its bootstrap through `x -> x / p`.
    pub open spec fn carry_of(&self, d: Seq<u64>) -> Seq<u64> {
        self.key.pbs_output(
            d,
            lut_accumulator(
                carry_table(self.message_modulus, self.carry_modulus),
                self.key.parameters.shape(),
                self.message_modulus,
                self.carry_modulus,
            ),
        )
    }

    /// The message of the block ciphertext `d`: its bootstrap through `x -> x mod p`.
    pub open spec fn message_of(&self, d: Seq<u64>) -> Seq<u64> {
        self.key.pbs_output(
            d,
            lut_accumulator(
                message_table(self.message_modulus, self.carry_modulus),
                self.key.parameters.shape(),
                self.message_modulus,
                self.carry_modulus,
            ),
        )
    }

    /// Block `i` keeps its message and hands its carry to block `i + 1`.
    pub open spec fn propagate_step(&self, ds: Seq<Seq<u64>>, i: int) -> Seq<Seq<u64>> {
        let with_message = ds.update(i, self.message_of(ds[i]));
        if i + 1 < ds.len() {
            with_message.update(i + 1, poly_add(ds[i + 1], self.carry_of(ds[i])))
        } else {
            with_message
        }
    }

    /// The blocks after the carries of the first `k` blocks have been propagated.
    pub open spec fn propagated(&self, ds: Seq<Seq<u64>>, k: int) -> Seq<Seq<u64>>
        decreases k,
    {
        if k <= 0 {
            ds
        } else {
            self.propagate_step(self.propagated(ds, k - 1), k - 1)
        }
    }
}

/// Block `d` negated: the mask negated; the body `z * delta - (b + carry_in * delta)`.
pub open spec fn negated_block(d: Seq<u64>, carry_in: int, z: int, delta: u64) -> Seq<u64> {
    Seq::new(
        d.len(),
        |j: int|
            if j == d.len() - 1 {
                t64(z * delta - (d[j] + carry_in * delta))
            } else {
                t64(-d[j])
            },
    )
}

/// The blocks `ds` of degrees `degs` negated without bootstrapping.
pub open spec fn negated(ds: Seq<Seq<u64>>, degs: Seq<u64>, p: u64, c: u64) -> Seq<Seq<u64>> {
    Seq::new(
        ds.len(),
        |i: int|
            negated_block(
                ds[i],
                neg_carry_in(degs, p, i),
                neg_z(degs[i] + neg_carry_in(degs, p, i), p),
                shortint_delta(p, c),
            ),
    )
}

/// The blocks `ds` with the base-`p` digits of `scalar` added to their bodies.
pub open spec fn scalar_added(ds: Seq<Seq<u64>>, scalar: u64, p: u64, c: u64) -> Seq<Seq<u64>> {
    Seq::new(
        ds.len(),
        |i: int|
            ds[i].update(
                ds[i].len() - 1,
                t64(ds[i].last() + scalar_digit(scalar, p, i as nat) * shortint_delta(p, c)),
            ),
    )
}

impl ServerKey {
    /// The coefficients of `ct` once its carries are empty: as they are when every block's
    /// degree is below `p`, else propagated.
    pub open spec fn prepared_datas(&self, ct: &RadixCiphertext) -> Seq<Seq<u64>> {
        if carries_empty(degrees(ct), self.message_modulus) {
            datas(ct)
        } else {
            self.propagated(datas(ct), ct.blocks.len() as int)
        }
    }

    /// The degrees that go with `prepared_datas`.
    pub open spec fn prepared_degrees(&self, ct: &RadixCiphertext) -> Seq<u64> {
        if carries_empty(degrees(ct), self.message_modulus) {
            degrees(ct)
        } else {
            propagated_degrees(ct.blocks.len() as nat, self.message_modulus)
        }
    }
}

/// Every degree is below `p`: no block holds a carry.
pub open spec fn carries_empty(degs: Seq<u64>, p: u64) -> bool {
    forall|i: int| 0 <= i < degs.len() ==> #[trigger] degs[i] < p
}

/// The degrees `p - 1` of `n` freshly propagated blocks.
pub open spec fn propagated_degrees(n: nat, p: u64) -> Seq<u64> {
    Seq::new(n, |i: int| (p - 1) as u64)
}

/// The radix server key: the bootstrapping key and the block moduli.
#[derive(Clone, Debug)]
pub struct ServerKey {
    pub key: keys::ServerKey,
    pub message_modulus: u64,
    pub carry_modulus: u64,
}

impl ServerKey {
    pub open spec fn wf(&self) -> bool {
        lut_compatible(&self.key, self.message_modulus, self.carry_modulus)
    }

    /// `ct` is a radix integer of this key: blocks of its dimension and moduli.
    pub open spec fn holds(&self, ct: &RadixCiphertext) -> bool {
        &&& ct.blocks.len() >= 1
        &&& forall|i: int|
            0 <= i < ct.blocks.len() ==> {
                &&& fits(&self.key, #[trigger] &ct.blocks[i])
                &&& ct.blocks[i].message_modulus == self.message_modulus
                &&& ct.blocks[i].carry_modulus == self.carry_modulus
            }
    }

    pub fn new(key: keys::ServerKey, message_modulus: u64, carry_modulus: u64) -> (r: Self)
        requires
            lut_compatible(&key, message_modulus, carry_modulus),
        ensures
            r.wf(),
            r.key == key,
            r.message_modulus == message_modulus,
            r.carry_modulus == carry_modulus,
    {
        ServerKey { key, message_modulus, carry_modulus }
    }

    /// Whether every block's degree is below `p`, that is, no block holds a carry.
    pub fn block_carries_are_empty(&self, ct: &RadixCiphertext) -> (r: bool)
        requires
            self.holds(ct),
        ensures
            r == carries_empty(degrees(ct), self.message_modulus),
            r == forall|i: int| 0 <= i < ct.blocks.len() ==> #[trigger] ct.blocks[i].degree < self.message_modulus,
    {
        let mut i: usize = 0;
        while i < ct.blocks.len()
            invariant
                i <= ct.blocks.len(),
                forall|j: int| 0 <= j < i ==> #[trigger] ct.blocks[j].degree < self.message_modulus,
            decreases ct.blocks.len() - i,
        {
            if ct.blocks[i].degree >= self.message_modulus {
                assert(degrees(ct)[i as int] >= self.message_modulus);
                return false;
            }
            i = i + 1;
        }
        assert forall|j: int| 0 <= j < degrees(ct).len() implies #[trigger] degrees(ct)[j] < self.message_modulus by {
            assert(ct.blocks[j].degree < self.message_modulus);
        }
        true
    }

    /// Empties the carries of every block, from the least significant one: the carry of a
    /// block is extracted by bootstrapping and added to the next block, and the block keeps
    /// its message only. The carry out of the last block is dropped.
    pub fn full_propagate_parallelized(&self, ct: &mut RadixCiphertext)
        requires
            self.wf(),
            self.holds(old(ct)),
            forall|i: int| 0 <= i < old(ct).blocks.len() ==> #[trigger] old(ct).blocks[i].degree <= MAX_PROPAGATED_DEGREE,
        ensures
            self.holds(final(ct)),
            final(ct).blocks.len() == old(ct).blocks.len(),
            forall|i: int| 0 <= i < final(ct).blocks.len() ==> #[trigger] final(ct).blocks[i].degree == self.message_modulus - 1,
            datas(final(ct)) == self.propagated(datas(old(ct)), old(ct).blocks.len() as int),
    {
        let n = ct.blocks.len();
        proof {
            lemma_valid_moduli(self.message_modulus, self.carry_modulus);
        }
        let ghost start = datas(ct);
        let mut i: usize = 0;
        while i < n
            invariant
                self.wf(),
                self.holds(ct),
                2 <= self.message_modulus <= 0x2000_0000,
                n == ct.blocks.len(),
                i <= n,
                forall|j: int| 0 <= j < i ==> #[trigger] ct.blocks[j].degree == self.message_modulus - 1,
                forall|j: int| i < j < n ==> #[trigger] ct.blocks[j].degree <= MAX_PROPAGATED_DEGREE,
                i < n ==> ct.blocks[i as int].degree <= 2 * MAX_PROPAGATED_DEGREE,
                start.len() == n,
                datas(ct) == self.propagated(start, i as int),
            decreases n - i,
        {
            let ghost before = datas(ct);
            let carry = carry_extract(&self.key, &ct.blocks[i]);
            let message = message_extract(&self.key, &ct.blocks[i]);
            proof {
                lemma_div_is_ordered_by_denominator(ct.blocks[i as int].degree as int, 2, self.message_modulus as int);
            }
            ct.blocks.set(i, message);
            if i + 1 < n {
                let mut next = copy_ciphertext(&ct.blocks[i + 1]);
                unchecked_add_assign(&mut next, &carry);
                proof {
                    assert(next.ct.data@ =~= poly_add(before[i + 1], self.carry_of(before[i as int])));
                }
                ct.blocks.set(i + 1, next);
            }
            proof {
                assert(datas(ct) =~= self.propagate_step(before, i as int));
            }
            i = i + 1;
        }
    }

    /// Whether negation keeps every block within `p * c - 1`.
    pub fn is_neg_possible(&self, ct: &RadixCiphertext) -> (r: bool)
        requires
            self.wf(),
            self.holds(ct),
            forall|i: int| 0 <= i < ct.blocks.len() ==> #[trigger] ct.blocks[i].degree <= MAX_PROPAGATED_DEGREE,
        ensures
            r == neg_possible(degrees(ct), self.message_modulus, self.carry_modulus),
    {
        let p = self.message_modulus;
        let ghost ds = degrees(ct);
        proof {
            lemma_valid_moduli(p, self.carry_modulus);
        }
        let max = p * self.carry_modulus;
        let mut carry_in: u64 = 0;
        let mut i: usize = 0;
        while i < ct.blocks.len()
            invariant
                ds == degrees(ct),
                2 <= p <= max <= 0x2000_0000,
                p == self.message_modulus,
                max == p * self.carry_modulus,
                forall|j: int| 0 <= j < ct.blocks.len() ==> #[trigger] ct.blocks[j].degree <= MAX_PROPAGATED_DEGREE,
                i <= ct.blocks.len(),
                carry_in == neg_carry_in(ds, p, i as int),
                carry_in <= max,
                forall|j: int| 0 <= j < i ==> #[trigger] neg_z(ds[j] + neg_carry_in(ds, p, j), p) < max,
            decreases ct.blocks.len() - i,
        {
            let x = ct.blocks[i].degree + carry_in;
            proof {
                lemma_neg_z_bounds(x as int, p);
            }
            let z = (x + p - 1) / p * p;
            assert(z == neg_z(ds[i as int] + neg_carry_in(ds, p, i as int), p));
            if z >= max {
                proof {
                    let k = i as int;
                    assert(!(neg_z(ds[k] + neg_carry_in(ds, p, k), p) < p * self.carry_modulus));
                    assert(0 <= k < ds.len());
                    assert(!neg_possible(ds, p, self.carry_modulus));
                }
                return false;
            }
            proof {
                lemma_div_multiples_vanish(((x + p - 1) / (p as int)) as int, p as int);
                vstd::arithmetic::mul::lemma_mul_is_commutative(((x + p - 1) / (p as int)) as int, p as int);
                assert(neg_carry_in(ds, p, i + 1) == z / p);
                lemma_div_is_ordered(z as int, max as int, p as int);
                lemma_div_is_ordered_by_denominator(max as int, 1, p as int);
                lemma_div_basics(max as int);
            }
            carry_in = z / p;
            i = i + 1;
        }
        true
    }

    /// The negation of `ct` without bootstrapping: block `i`, after receiving what the
    /// previous block's negation takes from it, becomes `z_i - m_i` with
    /// `z_i = ceil(degree / p) * p`, and its degree becomes `z_i`.
    pub fn unchecked_neg(&self, ct: &RadixCiphertext) -> (r: RadixCiphertext)
        requires
            self.wf(),
            self.holds(ct),
            neg_bounded(degrees(ct), self.message_modulus, self.carry_modulus),
        ensures
            self.holds(&r),
            r.blocks.len() == ct.blocks.len(),
            forall|i: int|
                0 <= i < ct.blocks.len() ==> #[trigger] r.blocks[i].degree == neg_z(
                    ct.blocks[i].degree + neg_carry_in(degrees(ct), self.message_modulus, i),
                    self.message_modulus,
                ),
            datas(&r) == negated(datas(ct), degrees(ct), self.message_modulus, self.carry_modulus),
            forall|i: int, j: int|
                0 <= i < ct.blocks.len() && 0 <= j < ct.blocks[i].ct.data.len() - 1 ==> #[trigger] r.blocks[i].ct.data@[j]
                    == t64(-ct.blocks[i].ct.data@[j]),
            forall|i: int|
                0 <= i < ct.blocks.len() ==> #[trigger] r.blocks[i].ct.body() == t64(
                    neg_z(
                        ct.blocks[i].degree + neg_carry_in(degrees(ct), self.message_modulus, i),
                        self.message_modulus,
                    ) * shortint_delta(self.message_modulus, self.carry_modulus) - (ct.blocks[i].ct.body()
                        + neg_carry_in(degrees(ct), self.message_modulus, i) * shortint_delta(
                        self.message_modulus,
                        self.carry_modulus,
                    )),
                ),
    {
        let p = self.message_modulus;
        let ghost ds = degrees(ct);
        proof {
            lemma_valid_moduli(p, self.carry_modulus);
        }
        let mut out: Vec<ShortintCiphertext> = Vec::new();
        let mut carry_in: u64 = 0;
        let mut i: usize = 0;
        while i < ct.blocks.len()
            invariant
                self.wf(),
                self.holds(ct),
                ds == degrees(ct),
                neg_bounded(ds, p, self.carry_modulus),
                p == self.message_modulus,
                2 <= p <= p * self.carry_modulus <= 0x2000_0000,
                i <= ct.blocks.len(),
                out.len() == i,
                carry_in == neg_carry_in(ds, p, i as int),
                forall|k: int|
                    0 <= k < i ==> {
                        &&& fits(&self.key, #[trigger] &out[k])
                        &&& out[k].message_modulus == self.message_modulus
                        &&& out[k].carry_modulus == self.carry_modulus
                        &&& out[k].degree == neg_z(ct.blocks[k].degree + neg_carry_in(ds, p, k), p)
                        &&& out[k].ct.data.len() == ct.blocks[k].ct.data.len()
                        &&& forall|j: int|
                            0 <= j < ct.blocks[k].ct.data.len() - 1 ==> #[trigger] out[k].ct.data@[j] == t64(
                                -ct.blocks[k].ct.data@[j],
                            )
                        &&& out[k].ct.body() == t64(
                            neg_z(ct.blocks[k].degree + neg_carry_in(ds, p, k), p) * shortint_delta(
                                p,
                                self.carry_modulus,
                            ) - (ct.blocks[k].ct.body() + neg_carry_in(ds, p, k) * shortint_delta(
                                p,
                                self.carry_modulus,
                            )),
                        )
                    },
            decreases ct.blocks.len() - i,
        {
            let mut block = copy_ciphertext(&ct.blocks[i]);
            let ghost input_block = ct.blocks[i as int];
            unchecked_scalar_add_assign(&mut block, carry_in);
            let x = block.degree;
            proof {
                lemma_neg_z_bounds(x as int, p);
            }
            let z = (x + p - 1) / p * p;
            let delta = crate::shortint::delta_exec(p, self.carry_modulus);
            proof {
                lemma_div_multiples_vanish(((x + p - 1) / (p as int)) as int, p as int);
                vstd::arithmetic::mul::lemma_mul_is_commutative(((x + p - 1) / (p as int)) as int, p as int);
                crate::arith::lemma_pow2_64();
            }
            let ghost added = block.ct.data@;
            crate::lwe::lwe_ciphertext_opposite_assign(&mut block.ct);
            let ghost negated = block.ct.data@;
            proof {
                crate::arith::lemma_wrapping_mul(z, delta);
            }
            crate::lwe::lwe_ciphertext_plaintext_add_assign(&mut block.ct, crate::lwe::Plaintext(z.wrapping_mul(delta)));
            block.degree = z;
            proof {
                let last = input_block.ct.data.len() - 1;
                let b0 = input_block.ct.body() as int;
                let cd = carry_in * delta;
                assert(added[last] == t64(b0 + cd));
                assert(negated[last] == t64(-(added[last] as int)));
                lemma_t64_add(0, b0 + cd);
                crate::arith::lemma_t64_bounds(0);
                lemma_small_mod(0, torus() as nat);
                lemma_t64_add(-(b0 + cd), (z * delta) as int);
                assert(block.ct.data@[last] == t64(z * delta - (b0 + cd)));
            }
            out.push(block);
            proof {
                assert(neg_carry_in(ds, p, i + 1) == z / p);
            }
            carry_in = z / p;
            i = i + 1;
        }
        let r = RadixCiphertext { blocks: out };
        proof {
            let target = negated(datas(ct), degrees(ct), p, self.carry_modulus);
            assert forall|k: int| 0 <= k < ct.blocks.len() implies #[trigger] datas(&r)[k] == target[k] by {
                assert(datas(&r)[k] =~= target[k]);
            }
            assert(datas(&r) =~= target);
        }
        r
    }

    /// The negation of `ct`, propagating its carries first when negation would overflow a
    /// block.
    pub fn smart_neg_parallelized(&self, ct: &mut RadixCiphertext) -> (r: RadixCiphertext)
        requires
            self.wf(),
            self.holds(old(ct)),
            forall|i: int| 0 <= i < old(ct).blocks.len() ==> #[trigger] old(ct).blocks[i].degree <= MAX_PROPAGATED_DEGREE,
        ensures
            self.holds(final(ct)),
            self.holds(&r),
            r.blocks.len() == old(ct).blocks.len(),
            final(ct).blocks.len() == old(ct).blocks.len(),
            neg_possible(degrees(old(ct)), self.message_modulus, self.carry_modulus) ==> *final(ct) == *old(ct),
            !neg_possible(degrees(old(ct)), self.message_modulus, self.carry_modulus) ==> datas(final(ct))
                == self.propagated(datas(old(ct)), old(ct).blocks.len() as int) && degrees(final(ct))
                == propagated_degrees(old(ct).blocks.len() as nat, self.message_modulus),
            datas(&r) == negated(datas(final(ct)), degrees(final(ct)), self.message_modulus, self.carry_modulus),
    {
        if !self.is_neg_possible(ct) {
            self.full_propagate_parallelized(ct);
            proof {
                lemma_neg_small(degrees(ct), self.message_modulus, self.carry_modulus);
                assert(degrees(ct) =~= propagated_degrees(ct.blocks.len() as nat, self.message_modulus));
            }
        } else {
            proof {
                lemma_neg_possible_is_bounded(degrees(ct), self.message_modulus, self.carry_modulus);
            }
        }
        self.unchecked_neg(ct)
    }

    /// The negation of `ct` with its carries propagated before and after.
    pub fn neg_parallelized(&self, ct: &RadixCiphertext) -> (r: RadixCiphertext)
        requires
            self.wf(),
            self.holds(ct),
            forall|i: int| 0 <= i < ct.blocks.len() ==> #[trigger] ct.blocks[i].degree <= MAX_PROPAGATED_DEGREE,
        ensures
            self.holds(&r),
            r.blocks.len() == ct.blocks.len(),
            forall|i: int| 0 <= i < r.blocks.len() ==> #[trigger] r.blocks[i].degree == self.message_modulus - 1,
            datas(&r) == self.propagated(
                negated(
                    self.prepared_datas(ct),
                    self.prepared_degrees(ct),
                    self.message_modulus,
                    self.carry_modulus,
                ),
                ct.blocks.len() as int,
            ),
    {
        let mut tmp = copy_radix(ct);
        assert(self.holds(&tmp));
        assert(datas(&tmp) =~= datas(ct));
        assert(degrees(&tmp) =~= degrees(ct));
        if !self.block_carries_are_empty(&tmp) {
            self.full_propagate_parallelized(&mut tmp);
            assert(degrees(&tmp) =~= propagated_degrees(ct.blocks.len() as nat, self.message_modulus));
        }
        assert(datas(&tmp) == self.prepared_datas(ct));
        assert(degrees(&tmp) == self.prepared_degrees(ct));
        proof {
            lemma_valid_moduli(self.message_modulus, self.carry_modulus);
            lemma_neg_small(degrees(&tmp), self.message_modulus, self.carry_modulus);
        }
        let mut negated = self.unchecked_neg(&tmp);
        assert forall|i: int| 0 <= i < negated.blocks.len() implies #[trigger] negated.blocks[i].degree <= MAX_PROPAGATED_DEGREE by {
            assert(negated.blocks[i].degree == neg_z(
                tmp.blocks[i].degree + neg_carry_in(degrees(&tmp), self.message_modulus, i),
                self.message_modulus,
            ));
            assert(degrees(&tmp)[i] == tmp.blocks[i].degree);
        }
        self.full_propagate_parallelized(&mut negated);
        negated
    }

    /// Whether adding the base-`p` digits of `scalar` keeps every block within `p * c - 1`.
    pub fn is_scalar_add_possible(&self, ct: &RadixCiphertext, scalar: u64) -> (r: bool)
        requires
            self.wf(),
            self.holds(ct),
        ensures
            r == scalar_add_possible(ct, self.message_modulus, self.carry_modulus, scalar),
    {
        let p = self.message_modulus;
        proof {
            lemma_valid_moduli(p, self.carry_modulus);
            lemma_pow0(p as int);
        }
        let max = p * self.carry_modulus;
        let mut rest: u64 = scalar;
        let mut i: usize = 0;
        while i < ct.blocks.len()
            invariant
                self.holds(ct),
                p == self.message_modulus,
                2 <= p <= max <= 0x2000_0000,
                max == p * self.carry_modulus,
                i <= ct.blocks.len(),
                rest == scalar as int / pow(p as int, i as nat),
                forall|j: int|
                    0 <= j < i ==> #[trigger] ct.blocks[j].degree + scalar_digit(scalar, p, j as nat) < max,
            decreases ct.blocks.len() - i,
        {
            let digit = rest % p;
            if ct.blocks[i].degree + digit >= max {
                return false;
            }
            proof {
                lemma_next_digit(scalar, p, i as nat);
            }
            rest = rest / p;
            i = i + 1;
        }
        true
    }

    /// Adds the base-`p` digits of `scalar` to the blocks, without bootstrapping.
    pub fn unchecked_scalar_add_assign(&self, ct: &mut RadixCiphertext, scalar: u64)
        requires
            self.wf(),
            self.holds(old(ct)),
            forall|i: int| 0 <= i < old(ct).blocks.len() ==> #[trigger] old(ct).blocks[i].degree <= MAX_PROPAGATED_DEGREE,
        ensures
            self.holds(final(ct)),
            final(ct).blocks.len() == old(ct).blocks.len(),
            forall|i: int|
                0 <= i < old(ct).blocks.len() ==> {
                    &&& (#[trigger] final(ct).blocks[i]).degree == old(ct).blocks[i].degree + scalar_digit(
                        scalar,
                        self.message_modulus,
                        i as nat,
                    )
                    &&& final(ct).blocks[i].ct.data@ == old(ct).blocks[i].ct.data@.update(
                        old(ct).blocks[i].ct.data.len() - 1,
                        t64(
                            old(ct).blocks[i].ct.body() + scalar_digit(scalar, self.message_modulus, i as nat)
                                * shortint_delta(self.message_modulus, self.carry_modulus),
                        ),
                    )
                },
            datas(final(ct)) == scalar_added(datas(old(ct)), scalar, self.message_modulus, self.carry_modulus),
    {
        let p = self.message_modulus;
        proof {
            lemma_valid_moduli(p, self.carry_modulus);
            lemma_pow0(p as int);
        }
        let ghost before = *ct;
        let mut rest: u64 = scalar;
        let mut i: usize = 0;
        while i < ct.blocks.len()
            invariant
                self.wf(),
                self.holds(ct),
                p == self.message_modulus,
                2 <= p <= p * self.carry_modulus <= 0x2000_0000,
                ct.blocks.len() == before.blocks.len(),
                forall|j: int| 0 <= j < before.blocks.len() ==> #[trigger] before.blocks[j].degree <= MAX_PROPAGATED_DEGREE,
                i <= ct.blocks.len(),
                rest == scalar as int / pow(p as int, i as nat),
                forall|j: int|
                    i <= j < ct.blocks.len() ==> #[trigger] ct.blocks[j] == before.blocks[j],
                forall|j: int|
                    0 <= j < i ==> {
                        &&& (#[trigger] ct.blocks[j]).degree == before.blocks[j].degree + scalar_digit(scalar, p, j as nat)
                        &&& ct.blocks[j].ct.data@ == before.blocks[j].ct.data@.update(
                            before.blocks[j].ct.data.len() - 1,
                            t64(
                                before.blocks[j].ct.body() + scalar_digit(scalar, p, j as nat) * shortint_delta(
                                    p,
                                    self.carry_modulus,
                                ),
                            ),
                        )
                    },
            decreases ct.blocks.len() - i,
        {
            let digit = rest % p;
            let mut block = copy_ciphertext(&ct.blocks[i]);
            proof {
                lemma_mod_bound(rest as int, p as int);
            }
            unchecked_scalar_add_assign(&mut block, digit);
            ct.blocks.set(i, block);
            proof {
                lemma_next_digit(scalar, p, i as nat);
            }
            rest = rest / p;
            i = i + 1;
        }
        proof {
            let target = scalar_added(datas(&before), scalar, p, self.carry_modulus);
            assert forall|k: int| 0 <= k < ct.blocks.len() implies #[trigger] datas(ct)[k] == target[k] by {
                assert(datas(ct)[k] =~= target[k]);
            }
            assert(datas(ct) =~= target);
        }
    }

    /// `ct` plus the base-`p` digits of `scalar`, without bootstrapping, as a new ciphertext.
    pub fn unchecked_scalar_add(&self, ct: &RadixCiphertext, scalar: u64) -> (r: RadixCiphertext)
        requires
            self.wf(),
            self.holds(ct),
            forall|i: int| 0 <= i < ct.blocks.len() ==> #[trigger] ct.blocks[i].degree <= MAX_PROPAGATED_DEGREE,
        ensures
            self.holds(&r),
            r.blocks.len() == ct.blocks.len(),
            forall|i: int|
                0 <= i < ct.blocks.len() ==> (#[trigger] r.blocks[i]).degree == ct.blocks[i].degree + scalar_digit(
                    scalar,
                    self.message_modulus,
                    i as nat,
                ),
            datas(&r) == scalar_added(datas(ct), scalar, self.message_modulus, self.carry_modulus),
    {
        let mut r = copy_radix(ct);
        assert(self.holds(&r));
        assert(datas(&r) =~= datas(ct));
        self.unchecked_scalar_add_assign(&mut r, scalar);
        r
    }

    /// Adds `scalar`, first propagating the carries when a block would overflow.
    pub fn smart_scalar_add_assign_parallelized(&self, ct: &mut RadixCiphertext, scalar: u64)
        requires
            self.wf(),
            self.holds(old(ct)),
            forall|i: int| 0 <= i < old(ct).blocks.len() ==> #[trigger] old(ct).blocks[i].degree <= MAX_PROPAGATED_DEGREE,
        ensures
            self.holds(final(ct)),
            final(ct).blocks.len() == old(ct).blocks.len(),
            forall|i: int|
                0 <= i < final(ct).blocks.len() ==> #[trigger] final(ct).blocks[i].degree == smart_scalar_add_degree(
                    old(ct),
                    self.message_modulus,
                    self.carry_modulus,
                    scalar,
                    i,
                ),
            datas(final(ct)) == scalar_added(
                if scalar_add_possible(old(ct), self.message_modulus, self.carry_modulus, scalar) {
                    datas(old(ct))
                } else {
                    self.propagated(datas(old(ct)), old(ct).blocks.len() as int)
                },
                scalar,
                self.message_modulus,
                self.carry_modulus,
            ),
    {
        proof {
            lemma_valid_moduli(self.message_modulus, self.carry_modulus);
        }
        if !self.is_scalar_add_possible(ct, scalar) {
            self.full_propagate_parallelized(ct);
            proof {
                lemma_digits_fit_after_propagation(ct, self.message_modulus, self.carry_modulus, scalar);
            }
        }
        self.unchecked_scalar_add_assign(ct, scalar);
    }

    /// `ct + scalar`, first propagating the carries of `ct` when a block would overflow.
    pub fn smart_scalar_add_parallelized(&self, ct: &mut RadixCiphertext, scalar: u64) -> (r: RadixCiphertext)
        requires
            self.wf(),
            self.holds(old(ct)),
            forall|i: int| 0 <= i < old(ct).blocks.len() ==> #[trigger] old(ct).blocks[i].degree <= MAX_PROPAGATED_DEGREE,
        ensures
            self.holds(final(ct)),
            self.holds(&r),
            final(ct).blocks.len() == old(ct).blocks.len(),
            r.blocks.len() == old(ct).blocks.len(),
            forall|i: int|
                0 <= i < r.blocks.len() ==> #[trigger] r.blocks[i].degree == smart_scalar_add_degree(
                    old(ct),
                    self.message_modulus,
                    self.carry_modulus,
                    scalar,
                    i,
                ),
            datas(&r) == scalar_added(
                if scalar_add_possible(old(ct), self.message_modulus, self.carry_modulus, scalar) {
                    datas(old(ct))
                } else {
                    self.propagated(datas(old(ct)), old(ct).blocks.len() as int)
                },
                scalar,
                self.message_modulus,
                self.carry_modulus,
            ),
            scalar_add_possible(old(ct), self.message_modulus, self.carry_modulus, scalar) ==> *final(ct) == *old(ct),
    {
        proof {
            lemma_valid_moduli(self.message_modulus, self.carry_modulus);
        }
        if !self.is_scalar_add_possible(ct, scalar) {
            self.full_propagate_parallelized(ct);
            proof {
                lemma_digits_fit_after_propagation(ct, self.message_modulus, self.carry_modulus, scalar);
            }
        }
        self.unchecked_scalar_add(ct, scalar)
    }

    /// Adds `scalar` with the carries propagated before and after: every block ends with an
    /// empty carry.
    pub fn scalar_add_assign_parallelized(&self, ct: &mut RadixCiphertext, scalar: u64)
        requires
            self.wf(),
            self.holds(old(ct)),
            forall|i: int| 0 <= i < old(ct).blocks.len() ==> #[trigger] old(ct).blocks[i].degree <= MAX_PROPAGATED_DEGREE,
        ensures
            self.holds(final(ct)),
            final(ct).blocks.len() == old(ct).blocks.len(),
            forall|i: int| 0 <= i < final(ct).blocks.len() ==> #[trigger] final(ct).blocks[i].degree == self.message_modulus - 1,
            datas(final(ct)) == self.propagated(
                scalar_added(self.prepared_datas(old(ct)), scalar, self.message_modulus, self.carry_modulus),
                old(ct).blocks.len() as int,
            ),
    {
        proof {
            lemma_valid_moduli(self.message_modulus, self.carry_modulus);
        }
        if !self.block_carries_are_empty(ct) {
            self.full_propagate_parallelized(ct);
        }
        let ghost mid = *ct;
        self.unchecked_scalar_add_assign(ct, scalar);
        proof {
            assert forall|i: int| 0 <= i < ct.blocks.len() implies #[trigger] ct.blocks[i].degree <= MAX_PROPAGATED_DEGREE by {
                lemma_digit_bound(scalar, self.message_modulus, i as nat);
                assert(mid.blocks[i].degree < self.message_modulus);
            }
        }
        self.full_propagate_parallelized(ct);
    }

    /// `ct + scalar` with the carries propagated before and after, as a new ciphertext.
    pub fn scalar_add_parallelized(&self, ct: &RadixCiphertext, scalar: u64) -> (r: RadixCiphertext)
        requires
            self.wf(),
            self.holds(ct),
            forall|i: int| 0 <= i < ct.blocks.len() ==> #[trigger] ct.blocks[i].degree <= MAX_PROPAGATED_DEGREE,
        ensures
            self.holds(&r),
            r.blocks.len() == ct.blocks.len(),
            forall|i: int| 0 <= i < r.blocks.len() ==> #[trigger] r.blocks[i].degree == self.message_modulus - 1,
            datas(&r) == self.propagated(
                scalar_added(self.prepared_datas(ct), scalar, self.message_modulus, self.carry_modulus),
                ct.blocks.len() as int,
            ),
    {
        let mut r = copy_radix(ct);
        assert(self.holds(&r));
        assert(datas(&r) =~= datas(ct));
        assert(degrees(&r) =~= degrees(ct));
        assert(self.prepared_datas(&r) == self.prepared_datas(ct));
        self.scalar_add_assign_parallelized(&mut r, scalar);
        r
    }
}

/// The digits of `ct` under `client_key`: the message of each block.
pub open spec fn decrypted_digits(client_key: &keys::ClientKey, ct: &RadixCiphertext) -> Seq<u64> {
    Seq::new(ct.blocks.len() as nat, |i: int| decrypted_digit(client_key, ct.blocks[i]))
}

/// The message of `block` under `client_key`.
pub open spec fn decrypted_digit(client_key: &keys::ClientKey, block: ShortintCiphertext) -> u64 {
    decode(
        lwe_phase(block.ct.data@, client_key.glwe_secret_key.data@),
        block.message_modulus,
        block.carry_modulus,
    ) % block.message_modulus
}

/// Encrypts the `num_blocks` lowest base-`p` digits of `message`, one per block.
pub fn encrypt_radix(
    engine: &mut ShortintEngine,
    client_key: &keys::ClientKey,
    message: u64,
    message_modulus: u64,
    carry_modulus: u64,
    num_blocks: usize,
) -> (r: RadixCiphertext)
    requires
        client_key.wf(),
        valid_moduli(message_modulus, carry_modulus),
    ensures
        r.blocks.len() == num_blocks,
        forall|i: int|
            0 <= i < num_blocks ==> {
                &&& (#[trigger] r.blocks[i]).wf()
                &&& r.blocks[i].message_modulus == message_modulus
                &&& r.blocks[i].carry_modulus == carry_modulus
                &&& r.blocks[i].degree == scalar_digit(message, message_modulus, i as nat)
                &&& r.blocks[i].ct.data.len() == client_key.parameters.lwe_dimension + 1
            },
{
    let p = message_modulus;
    proof {
        lemma_valid_moduli(p, carry_modulus);
        lemma_pow0(p as int);
    }
    let mut blocks: Vec<ShortintCiphertext> = Vec::new();
    let mut rest: u64 = message;
    let mut i: usize = 0;
    while i < num_blocks
        invariant
            client_key.wf(),
            valid_moduli(p, carry_modulus),
            p == message_modulus,
            p >= 2,
            i <= num_blocks,
            blocks.len() == i,
            rest == message as int / pow(p as int, i as nat),
            forall|k: int|
                0 <= k < i ==> {
                    &&& (#[trigger] blocks[k]).wf()
                    &&& blocks[k].message_modulus == message_modulus
                    &&& blocks[k].carry_modulus == carry_modulus
                    &&& blocks[k].degree == scalar_digit(message, message_modulus, k as nat)
                    &&& blocks[k].ct.data.len() == client_key.parameters.lwe_dimension + 1
                },
        decreases num_blocks - i,
    {
        let digit = rest % p;
        proof {
            lemma_mod_bound(rest as int, p as int);
            lemma_small_mod(digit as nat, p as nat);
        }
        let block = engine.encrypt(client_key, digit, p, carry_modulus);
        blocks.push(block);
        proof {
            lemma_next_digit(message, p, i as nat);
        }
        rest = rest / p;
        i = i + 1;
    }
    RadixCiphertext { blocks }
}

/// The integer that `ct` encrypts, modulo `2^64`: the sum of its block messages times the
/// powers of `p`.
pub fn decrypt_radix(engine: &ShortintEngine, client_key: &keys::ClientKey, ct: &RadixCiphertext) -> (r: u64)
    requires
        client_key.wf(),
        ct.blocks.len() >= 1,
        forall|i: int|
            0 <= i < ct.blocks.len() ==> (#[trigger] ct.blocks[i]).wf() && ct.blocks[i].ct.data.len()
                == client_key.parameters.lwe_dimension + 1 && ct.blocks[i].message_modulus
                == ct.blocks[0].message_modulus,
    ensures
        r == t64(radix_value(decrypted_digits(client_key, ct), ct.blocks[0].message_modulus, ct.blocks.len() as int)),
{
    let p = ct.blocks[0].message_modulus;
    let ghost ds = decrypted_digits(client_key, ct);
    let mut acc: u64 = 0;
    let mut power: u64 = 1;
    proof {
        lemma_pow0(p as int);
        lemma_small_mod(0, torus() as nat);
        lemma_small_mod(1, torus() as nat);
    }
    let mut i: usize = 0;
    while i < ct.blocks.len()
        invariant
            client_key.wf(),
            ds == decrypted_digits(client_key, ct),
            p == ct.blocks[0].message_modulus,
            forall|k: int|
                0 <= k < ct.blocks.len() ==> (#[trigger] ct.blocks[k]).wf() && ct.blocks[k].ct.data.len()
                    == client_key.parameters.lwe_dimension + 1 && ct.blocks[k].message_modulus == p,
            i <= ct.blocks.len(),
            acc == t64(radix_value(ds, p, i as int)),
            power == t64(pow(p as int, i as nat)),
        decreases ct.blocks.len() - i,
    {
        let d = engine.decrypt(client_key, &ct.blocks[i]);
        proof {
            lemma_decrypted_digit(client_key, ct, i as int);
            assert(ds[i as int] == d);
            let pw = pow(p as int, i as nat);
            crate::arith::lemma_wrapping_mul(d, power);
            lemma_mul_mod_noop_right(d as int, pw, torus());
            crate::arith::lemma_wrapping_add(acc, t64(d * power));
            lemma_t64_add(radix_value(ds, p, i as int), d * pw);
            crate::arith::lemma_wrapping_mul(power, p);
            lemma_mul_mod_noop_left(pw, p as int, torus());
            vstd::arithmetic::power::lemma_pow_adds(p as int, i as nat, 1);
            vstd::arithmetic::power::lemma_pow1(p as int);
            lemma_decrypted_digit(client_key, ct, i as int);
        }
        acc = acc.wrapping_add(d.wrapping_mul(power));
        power = power.wrapping_mul(p);
        i = i + 1;
    }
    acc
}

proof fn lemma_decrypted_digit(client_key: &keys::ClientKey, ct: &RadixCiphertext, i: int)
    requires
        0 <= i < ct.blocks.len(),
    ensures
        decrypted_digits(client_key, ct).len() == ct.blocks.len(),
        decrypted_digits(client_key, ct)[i] == decode(
            lwe_phase(ct.blocks[i].ct.data@, client_key.glwe_secret_key.data@),
            ct.blocks[i].message_modulus,
            ct.blocks[i].carry_modulus,
        ) % ct.blocks[i].message_modulus,
{
}

/// A copy of `ct`.
pub fn copy_radix(ct: &RadixCiphertext) -> (r: RadixCiphertext)
    ensures
        r.blocks.len() == ct.blocks.len(),
        forall|i: int|
            0 <= i < ct.blocks.len() ==> {
                &&& (#[trigger] r.blocks[i]).ct.data@ == ct.blocks[i].ct.data@
                &&& r.blocks[i].ct.ciphertext_modulus == ct.blocks[i].ct.ciphertext_modulus
                &&& r.blocks[i].degree == ct.blocks[i].degree
                &&& r.blocks[i].message_modulus == ct.blocks[i].message_modulus
                &&& r.blocks[i].carry_modulus == ct.blocks[i].carry_modulus
            },
{
    let mut blocks: Vec<ShortintCiphertext> = Vec::new();
    let mut i: usize = 0;
    while i < ct.blocks.len()
        invariant
            i <= ct.blocks.len(),
            blocks.len() == i,
            forall|k: int|
                0 <= k < i ==> {
                    &&& (#[trigger] blocks[k]).ct.data@ == ct.blocks[k].ct.data@
                    &&& blocks[k].ct.ciphertext_modulus == ct.blocks[k].ct.ciphertext_modulus
                    &&& blocks[k].degree == ct.blocks[k].degree
                    &&& blocks[k].message_modulus == ct.blocks[k].message_modulus
                    &&& blocks[k].carry_modulus == ct.blocks[k].carry_modulus
                },
        decreases ct.blocks.len() - i,
    {
        blocks.push(copy_ciphertext(&ct.blocks[i]));
        i = i + 1;
    }
    RadixCiphertext { blocks }
}

proof fn lemma_digit_bound(scalar: u64, p: u64, i: nat)
    requires
        p >= 2,
    ensures
        scalar_digit(scalar, p, i) < p,
{
    vstd::arithmetic::power::lemma_pow_positive(p as int, i);
    lemma_div_pos_is_pos(scalar as int, pow(p as int, i));
    lemma_mod_bound(scalar as int / pow(p as int, i), p as int);
}

/// The digit of position `i` and the rest above it.
proof fn lemma_next_digit(scalar: u64, p: u64, i: nat)
    requires
        p >= 2,
    ensures
        scalar as int / pow(p as int, i + 1) == (scalar as int / pow(p as int, i)) / (p as int),
{
    vstd::arithmetic::power::lemma_pow_positive(p as int, i);
    vstd::arithmetic::power::lemma_pow_adds(p as int, i, 1);
    vstd::arithmetic::power::lemma_pow1(p as int);
    lemma_div_denominator(scalar as int, pow(p as int, i), p as int);
}

/// After propagation every block has degree `p - 1`, so any digit fits when `c >= 2`, and
/// the addition stays within the propagation bound in any case.
proof fn lemma_digits_fit_after_propagation(ct: &RadixCiphertext, p: u64, c: u64, scalar: u64)
    requires
        valid_moduli(p, c),
        forall|i: int| 0 <= i < ct.blocks.len() ==> #[trigger] ct.blocks[i].degree == p - 1,
    ensures
        forall|i: int| 0 <= i < ct.blocks.len() ==> #[trigger] ct.blocks[i].degree <= MAX_PROPAGATED_DEGREE,
{
    lemma_valid_moduli(p, c);
}

proof fn lemma_neg_z_bounds(x: int, p: u64)
    requires
        x >= 0,
        p >= 2,
    ensures
        x <= neg_z(x, p) <= x + p - 1,
        neg_z(x, p) / (p as int) <= neg_z(x, p),
        neg_z(x, p) == (neg_z(x, p) / (p as int)) * p,
        x <= p ==> neg_z(x, p) <= p,
{
    let q = (x + p - 1) / (p as int);
    lemma_fundamental_div_mod(x + p - 1, p as int);
    lemma_mod_bound(x + p - 1, p as int);
    lemma_div_pos_is_pos(x + p - 1, p as int);
    vstd::arithmetic::mul::lemma_mul_is_commutative(q, p as int);
    lemma_div_multiples_vanish(q, p as int);
    assert(q <= q * p) by (nonlinear_arith)
        requires
            q >= 0,
            p >= 2,
    ;
    if x <= p {
        lemma_div_is_ordered(x + p - 1, 2 * p - 1, p as int);
        lemma_fundamental_div_mod(2 * p - 1, p as int);
        lemma_mod_bound(2 * p - 1, p as int);
        assert((2 * p - 1) / (p as int) <= 1) by (nonlinear_arith)
            requires
                2 * p - 1 == p * ((2 * p - 1) / (p as int)) + (2 * p - 1) % (p as int),
                (2 * p - 1) % (p as int) >= 0,
                p >= 2,
        ;
        assert(q * p <= p) by (nonlinear_arith)
            requires
                q <= 1,
                q >= 0,
                p >= 2,
        ;
    }
}

/// Blocks of degree below `p` receive at most 1 from the negation of the previous block
/// and end with degree at most `p`.
proof fn lemma_neg_small(ds: Seq<u64>, p: u64, c: u64)
    requires
        valid_moduli(p, c),
        forall|i: int| 0 <= i < ds.len() ==> #[trigger] ds[i] <= p - 1,
    ensures
        neg_bounded(ds, p, c),
        forall|i: int| 0 <= i < ds.len() ==> #[trigger] neg_z(ds[i] + neg_carry_in(ds, p, i), p) <= p,
{
    lemma_valid_moduli(p, c);
    assert forall|i: int| 0 <= i <= ds.len() implies #[trigger] neg_carry_in(ds, p, i) <= 1 && neg_carry_in(ds, p, i) >= 0 by {
        lemma_neg_carry_small(ds, p, i);
    }
    assert forall|i: int| 0 <= i < ds.len() implies #[trigger] neg_z(ds[i] + neg_carry_in(ds, p, i), p) <= p by {
        assert(neg_carry_in(ds, p, i) <= 1 && neg_carry_in(ds, p, i) >= 0);
        lemma_neg_z_bounds(ds[i] + neg_carry_in(ds, p, i), p);
    }
}

proof fn lemma_neg_carry_small(ds: Seq<u64>, p: u64, i: int)
    requires
        p >= 2,
        0 <= i <= ds.len(),
        forall|k: int| 0 <= k < ds.len() ==> #[trigger] ds[k] <= p - 1,
    ensures
        0 <= neg_carry_in(ds, p, i) <= 1,
    decreases i,
{
    if i > 0 {
        lemma_neg_carry_small(ds, p, i - 1);
        let x = ds[i - 1] + neg_carry_in(ds, p, i - 1);
        lemma_neg_z_bounds(x, p);
        lemma_div_is_ordered(neg_z(x, p), p as int, p as int);
        lemma_div_by_self(p as int);
        lemma_div_pos_is_pos(neg_z(x, p), p as int);
    }
}

/// When negation is possible, the degrees stay within bounds while it is carried out.
proof fn lemma_neg_possible_is_bounded(ds: Seq<u64>, p: u64, c: u64)
    requires
        valid_moduli(p, c),
        neg_possible(ds, p, c),
        forall|i: int| 0 <= i < ds.len() ==> #[trigger] ds[i] <= MAX_PROPAGATED_DEGREE,
    ensures
        neg_bounded(ds, p, c),
{
    lemma_valid_moduli(p, c);
    assert forall|i: int| 0 <= i < ds.len() implies #[trigger] neg_carry_in(ds, p, i) < p * c && ds[i] + neg_carry_in(ds, p, i) <= MAX_PROPAGATED_DEGREE by {
        lemma_neg_carry_possible(ds, p, c, i);
        lemma_neg_z_bounds(ds[i] + neg_carry_in(ds, p, i), p);
        assert(neg_z(ds[i] + neg_carry_in(ds, p, i), p) < p * c);
    }
}

proof fn lemma_neg_carry_possible(ds: Seq<u64>, p: u64, c: u64, i: int)
    requires
        valid_moduli(p, c),
        neg_possible(ds, p, c),
        0 <= i < ds.len(),
    ensures
        0 <= neg_carry_in(ds, p, i) < p * c,
    decreases i,
{
    lemma_valid_moduli(p, c);
    if i > 0 {
        lemma_neg_carry_possible(ds, p, c, i - 1);
        let x = ds[i - 1] + neg_carry_in(ds, p, i - 1);
        lemma_neg_z_bounds(x, p);
        assert(neg_z(x, p) < p * c);
        lemma_div_pos_is_pos(neg_z(x, p), p as int);
    }
}

} // verus!
