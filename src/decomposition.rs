//! Signed gadget decomposition of torus elements.
//!
//! With base `2^B` and `l` levels, a torus element `x` is first rounded to the nearest
//! multiple of `2^(64 - B*l)`; the rounded value is then written with `l` balanced digits
//! `d_1 .. d_l` in `[-2^(B-1), 2^(B-1))`, digit `d_i` weighing `2^(64 - B*i)`.
use crate::arith::{lemma_pow2_0, lemma_pow2_64, lemma_t64_add, lemma_t64_bounds, pow2_u128, t64, torus};
use vstd::arithmetic::div_mod::*;
use vstd::arithmetic::mul::*;
use vstd::arithmetic::power2::*;
use vstd::prelude::*;

verus! {

/// The number of low bits that the rounding drops.
pub open spec fn dropped_bits(base_log: nat, level_count: nat) -> nat {
    (64 - base_log * level_count) as nat
}

/// `x` rounded to the nearest multiple of `2^(64 - B*l)` (ties upward), on the torus.
pub open spec fn closest_representable(x: u64, base_log: nat, level_count: nat) -> u64 {
    let s = dropped_bits(base_log, level_count);
    t64(((x + pow2((s - 1) as nat)) / (pow2(s) as int)) * pow2(s))
}

/// The rounded value of `x` in units of `2^(64 - B*l)`, modulo `2^(B*l)`.
pub open spec fn decomposition_state(x: u64, base_log: nat, level_count: nat) -> int {
    let s = dropped_bits(base_log, level_count);
    ((x + pow2((s - 1) as nat)) / (pow2(s) as int)) % (pow2(base_log * level_count) as int)
}

/// The balanced lowest digit of `v` in base `2^B`, in `[-2^(B-1), 2^(B-1))`.
pub open spec fn balanced_digit(v: int, base_log: nat) -> int {
    let r = v % (pow2(base_log) as int);
    if r >= pow2((base_log - 1) as nat) {
        r - pow2(base_log)
    } else {
        r
    }
}

/// What is left of `v` after its `k` lowest balanced digits are taken off.
pub open spec fn carry_state(v: int, base_log: nat, k: nat) -> int
    decreases k,
{
    if k == 0 {
        v
    } else {
        let p = carry_state(v, base_log, (k - 1) as nat);
        (p - balanced_digit(p, base_log)) / (pow2(base_log) as int)
    }
}

/// The digit of level `level + 1` (the one weighing `2^(64 - B*(level+1))`), as a torus element.
pub open spec fn decomposition_term(x: u64, base_log: nat, level_count: nat, level: nat) -> u64 {
    let v = decomposition_state(x, base_log, level_count);
    t64(balanced_digit(carry_state(v, base_log, (level_count - 1 - level) as nat), base_log))
}

/// Parameters of a decomposition: `1 <= B`, `1 <= l` and `B * l < 64`.
pub open spec fn valid_decomposition(base_log: nat, level_count: nat) -> bool {
    1 <= base_log && 1 <= level_count && base_log * level_count < 64
}

/// Rounds `x` to the nearest multiple of `2^(64 - B*l)`.
pub fn closest_representable_exec(x: u64, base_log: u32, level_count: u32) -> (r: u64)
    requires
        valid_decomposition(base_log as nat, level_count as nat),
    ensures
        r == closest_representable(x, base_log as nat, level_count as nat),
{
    proof {
        assert(base_log * level_count >= 1) by (nonlinear_arith)
            requires
                base_log >= 1,
                level_count >= 1,
        ;
    }
    let s: u32 = 64 - base_log * level_count;
    let half = pow2_u128(s - 1);
    let unit = pow2_u128(s);
    let full = pow2_u128(64);
    proof {
        lemma_pow2_64();
        lemma_pow2_pos(s as nat);
        lemma_pow2_strictly_increases((s - 1) as nat, 64);
        lemma_pow2_strictly_increases(s as nat, 65);
        lemma_pow2_unfold(65);
    }
    let v: u128 = (x as u128 + half) / unit;
    proof {
        lemma_fundamental_div_mod((x + half) as int, unit as int);
        lemma_mod_bound((x + half) as int, unit as int);
        assert(v * unit <= x + half) by (nonlinear_arith)
            requires
                x + half == unit * v + (x + half) % (unit as int),
                (x + half) % (unit as int) >= 0,
        ;
    }
    let rounded: u128 = (v * unit) % full;
    proof {
        lemma_mod_bound((v * unit) as int, full as int);
    }
    rounded as u64
}

/// All `l` digits of `x`, the digit of level `i + 1` at index `i`.
pub fn decompose(x: u64, base_log: u32, level_count: u32) -> (r: Vec<u64>)
    requires
        valid_decomposition(base_log as nat, level_count as nat),
    ensures
        r.len() == level_count,
        forall|i: int|
            0 <= i < level_count ==> #[trigger] r@[i] == decomposition_term(
                x,
                base_log as nat,
                level_count as nat,
                i as nat,
            ),
{
    let ghost bl = base_log as nat;
    let ghost ll = level_count as nat;
    proof {
        assert(base_log * level_count >= 1) by (nonlinear_arith)
            requires
                base_log >= 1,
                level_count >= 1,
        ;
        assert(base_log <= base_log * level_count) by (nonlinear_arith)
            requires
                level_count >= 1,
        ;
    }
    let s: u32 = 64 - base_log * level_count;
    let half = pow2_u128(s - 1);
    let unit = pow2_u128(s);
    let span = pow2_u128(base_log * level_count);
    let base = pow2_u128(base_log);
    let base_half = pow2_u128(base_log - 1);
    proof {
        lemma_pow2_64();
        lemma_pow2_pos(s as nat);
        lemma_pow2_pos(base_log as nat);
        lemma_pow2_pos((base_log * level_count) as nat);
        lemma_pow2_strictly_increases((s - 1) as nat, 64);
        lemma_pow2_strictly_increases(base_log as nat, 64);
        lemma_pow2_strictly_increases((base_log * level_count) as nat, 64);
        lemma_pow2_unfold(base_log as nat);
        lemma_pow2_0();
    }
    let v: u128 = ((x as u128 + half) / unit) % span;
    proof {
        lemma_mod_bound(((x + half) / unit as int), span as int);
    }
    let mut digits: Vec<u64> = Vec::new();
    let mut i: u32 = 0;
    while i < level_count
        invariant
            i <= level_count,
            digits.len() == i,
            forall|j: int| 0 <= j < i ==> #[trigger] digits@[j] == 0u64,
        decreases level_count - i,
    {
        digits.push(0);
        i = i + 1;
    }
    let mut state: u128 = v;
    let mut k: u32 = 0;
    while k < level_count
        invariant
            k <= level_count,
            bl == base_log,
            ll == level_count,
            base as nat == pow2(bl),
            base_half as nat == pow2((bl - 1) as nat),
            base >= 2,
            base == 2 * base_half,
            v as int == decomposition_state(x, bl, ll),
            v < torus(),
            state as int == carry_state(v as int, bl, k as nat),
            state <= v,
            digits.len() == level_count,
            forall|j: int|
                level_count - k <= j < level_count ==> #[trigger] digits@[j] == decomposition_term(
                    x,
                    bl,
                    ll,
                    j as nat,
                ),
        decreases level_count - k,
    {
        let rem: u128 = state % base;
        let quot: u128 = state / base;
        proof {
            lemma_fundamental_div_mod(state as int, base as int);
            lemma_mod_bound(state as int, base as int);
            lemma_div_is_ordered_by_denominator(state as int, 2, base as int);
            lemma_div_pos_is_pos(state as int, base as int);
        }
        let digit: u64;
        let next: u128;
        if rem >= base_half {
            digit = 0u64.wrapping_sub((base - rem) as u64);
            proof {
                crate::arith::lemma_wrapping_sub(0, (base - rem) as u64);
                assert(state >= 1);
                assert(quot + 1 <= state) by (nonlinear_arith)
                    requires
                        quot <= state / 2,
                        state >= 1,
                ;
                assert(state - (rem - base) == base * (quot + 1)) by (nonlinear_arith)
                    requires
                        state == base * quot + rem,
                ;
                lemma_div_multiples_vanish((quot + 1) as int, base as int);
            }
            next = quot + 1;
        } else {
            digit = rem as u64;
            proof {
                lemma_small_mod(rem as nat, torus() as nat);
                assert(quot <= state) by (nonlinear_arith)
                    requires
                        quot <= state / 2,
                        state >= 0,
                ;
                assert(state - rem == base * quot);
                lemma_div_multiples_vanish(quot as int, base as int);
            }
            next = quot;
        }
        let idx: u32 = level_count - 1 - k;
        digits.set(idx as usize, digit);
        state = next;
        k = k + 1;
    }
    digits
}

/// The digit of level `level + 1` of `x`.
pub fn decomposition_term_exec(x: u64, base_log: u32, level_count: u32, level: u32) -> (r: u64)
    requires
        valid_decomposition(base_log as nat, level_count as nat),
        level < level_count,
    ensures
        r == decomposition_term(x, base_log as nat, level_count as nat, level as nat),
{
    let digits = decompose(x, base_log, level_count);
    digits[level as usize]
}

/// `sum_{i < j} d_{i+1} * 2^(64 - B*(i+1))`: the digits of the first `j` levels of `x` put
/// back at their weights.
pub open spec fn recompose(x: u64, base_log: nat, level_count: nat, j: int) -> int
    decreases j,
{
    if j <= 0 {
        0
    } else {
        recompose(x, base_log, level_count, j - 1) + decomposition_term(
            x,
            base_log,
            level_count,
            (j - 1) as nat,
        ) * pow2((64 - base_log * j) as nat)
    }
}

/// What is left of `v` after `k` digits equals `v` minus those digits, shifted down.
proof fn lemma_carry_state_expansion(v: int, base_log: nat, k: nat)
    requires
        base_log >= 1,
    ensures
        v == digit_sum(v, base_log, k) + carry_state(v, base_log, k) * pow2(base_log * k),
    decreases k,
{
    if k == 0 {
        lemma_pow2_0();
        assert(base_log * 0 == 0);
    } else {
        let km = (k - 1) as nat;
        lemma_carry_state_expansion(v, base_log, km);
        let p = carry_state(v, base_log, km);
        let b = pow2(base_log) as int;
        let d = balanced_digit(p, base_log);
        lemma_pow2_pos(base_log);
        lemma_pow2_pos((base_log - 1) as nat);
        lemma_fundamental_div_mod(p, b);
        lemma_mod_bound(p, b);
        let q = p / b;
        if p % b >= pow2((base_log - 1) as nat) {
            assert(d == p % b - b);
            assert(p - d == b * (q + 1)) by (nonlinear_arith)
                requires
                    p == b * q + p % b,
                    d == p % b - b,
            ;
            lemma_div_multiples_vanish(q + 1, b);
        } else {
            assert(p - d == b * q);
            lemma_div_multiples_vanish(q, b);
        }
        let c = carry_state(v, base_log, k);
        assert(p == d + c * b) by (nonlinear_arith)
            requires
                p - d == b * c,
        ;
        lemma_pow2_adds(base_log * km, base_log);
        assert(base_log * km + base_log == base_log * k) by (nonlinear_arith)
            requires
                km + 1 == k,
        ;
        let w = pow2(base_log * km) as int;
        assert(p * w == d * w + c * (b * w)) by (nonlinear_arith)
            requires
                p == d + c * b,
        ;
    }
}

/// `sum_{k' < k} d_k' * 2^(B*k')` with `d_k'` the `k'`-th lowest balanced digit of `v`.
pub open spec fn digit_sum(v: int, base_log: nat, k: nat) -> int
    decreases k,
{
    if k == 0 {
        0
    } else {
        digit_sum(v, base_log, (k - 1) as nat) + balanced_digit(
            carry_state(v, base_log, (k - 1) as nat),
            base_log,
        ) * pow2(base_log * (k - 1) as nat)
    }
}

proof fn lemma_recompose_is_digit_sum(x: u64, base_log: nat, level_count: nat, j: nat)
    requires
        valid_decomposition(base_log, level_count),
        j <= level_count,
    ensures
        t64(recompose(x, base_log, level_count, j as int)) == t64(
            (digit_sum(decomposition_state(x, base_log, level_count), base_log, level_count) - digit_sum(
                decomposition_state(x, base_log, level_count),
                base_log,
                (level_count - j) as nat,
            )) * pow2(dropped_bits(base_log, level_count)),
        ),
    decreases j,
{
    let s = dropped_bits(base_log, level_count);
    let v = decomposition_state(x, base_log, level_count);
    let top = digit_sum(v, base_log, level_count);
    if j == 0 {
        assert((top - top) * pow2(s) == 0);
    } else {
        let jm = (j - 1) as nat;
        lemma_recompose_is_digit_sum(x, base_log, level_count, jm);
        let k = (level_count - j) as nat;
        assert((level_count - 1 - jm) as nat == k);
        let d = balanced_digit(carry_state(v, base_log, k), base_log);
        assert(base_log * k + s == 64 - base_log * j) by (nonlinear_arith)
            requires
                k + j == level_count,
                s == 64 - base_log * level_count,
        ;
        lemma_pow2_adds(base_log * k, s);
        let w = pow2(base_log * k) as int;
        let ws = pow2(s) as int;
        let lower = digit_sum(v, base_log, k);
        let upper = digit_sum(v, base_log, (k + 1) as nat);
        assert(upper == lower + d * w);
        assert((top - lower) * ws == (top - upper) * ws + d * (w * ws)) by (nonlinear_arith)
            requires
                upper == lower + d * w,
        ;
        lemma_t64_bounds(d);
        lemma_mul_mod_noop_left(d, w * ws, torus());
        let prev = recompose(x, base_log, level_count, jm as int);
        lemma_t64_add(prev, t64(d) * (w * ws));
        lemma_t64_add((top - upper) * ws, d * (w * ws));
        lemma_t64_add(prev, d * (w * ws));
    }
}

/// The digits of `x`, put back at their weights `2^(64 - B * i)`, give `x` rounded to the
/// nearest multiple of `2^(64 - B*l)`, on the torus.
pub proof fn lemma_decomposition_recomposes(x: u64, base_log: nat, level_count: nat)
    requires
        valid_decomposition(base_log, level_count),
    ensures
        t64(recompose(x, base_log, level_count, level_count as int)) == closest_representable(
            x,
            base_log,
            level_count,
        ),
{
    let s = dropped_bits(base_log, level_count);
    let bl = base_log * level_count;
    let v = decomposition_state(x, base_log, level_count);
    lemma_recompose_is_digit_sum(x, base_log, level_count, level_count);
    assert(digit_sum(v, base_log, 0) == 0);
    lemma_carry_state_expansion(v, base_log, level_count);
    let u = (x + pow2((s - 1) as nat)) / (pow2(s) as int);
    lemma_pow2_pos(s);
    lemma_pow2_pos(bl);
    lemma_fundamental_div_mod(u, pow2(bl) as int);
    lemma_pow2_adds(bl, s);
    assert(bl + s == 64);
    lemma_pow2_64();
    let t = torus();
    let c = carry_state(v, base_log, level_count);
    let q = u / (pow2(bl) as int);
    let ds = digit_sum(v, base_log, level_count);
    assert(u * pow2(s) == ds * pow2(s) + (c + q) * t) by (nonlinear_arith)
        requires
            u == pow2(bl) * q + v,
            v == ds + c * pow2(bl),
            pow2(bl) * pow2(s) == t,
    ;
    lemma_mod_multiples_vanish(c + q, ds * pow2(s), t);
}

/// Every digit of zero is zero.
pub proof fn lemma_decompose_zero(base_log: nat, level_count: nat, level: nat)
    requires
        valid_decomposition(base_log, level_count),
        level < level_count,
    ensures
        decomposition_term(0, base_log, level_count, level) == 0,
{
    let s = dropped_bits(base_log, level_count);
    assert(base_log * level_count >= 1) by (nonlinear_arith)
        requires
            base_log >= 1,
            level_count >= 1,
    ;
    lemma_pow2_pos(s);
    lemma_pow2_pos(base_log);
    lemma_pow2_pos(base_log * level_count);
    lemma_pow2_strictly_increases((s - 1) as nat, s);
    lemma_basic_div(pow2((s - 1) as nat) as int, pow2(s) as int);
    lemma_small_mod(0, pow2(base_log * level_count));
    lemma_carry_state_zero(base_log, (level_count - 1 - level) as nat);
    lemma_small_mod(0, pow2(base_log));
    lemma_small_mod(0, torus() as nat);
    lemma_pow2_pos((base_log - 1) as nat);
    assert(decomposition_state(0, base_log, level_count) == 0);
    assert(balanced_digit(0, base_log) == 0);
}

proof fn lemma_carry_state_zero(base_log: nat, k: nat)
    requires
        base_log >= 1,
    ensures
        carry_state(0, base_log, k) == 0,
    decreases k,
{
    lemma_pow2_pos(base_log);
    lemma_small_mod(0, pow2(base_log));
    lemma_pow2_pos((base_log - 1) as nat);
    if k > 0 {
        lemma_carry_state_zero(base_log, (k - 1) as nat);
        lemma_basic_div(0, pow2(base_log) as int);
    }
}

} // verus!
