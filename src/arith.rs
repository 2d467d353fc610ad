use vstd::arithmetic::div_mod::*;
use vstd::arithmetic::power2::*;
use vstd::prelude::*;

verus! {

/// The size of the native torus `Z / 2^64 Z`.
pub open spec fn torus() -> int {
    0x1_0000_0000_0000_0000
}

/// Reduction of an integer onto the native torus.
pub open spec fn t64(x: int) -> u64 {
    (x % torus()) as u64
}

pub proof fn lemma_pow2_64()
    ensures
        pow2(64) == torus(),
        pow2(63) == 0x8000_0000_0000_0000,
{
    lemma2_to64_rest();
}

pub proof fn lemma_t64_bounds(x: int)
    ensures
        0 <= x % torus() < torus(),
        t64(x) as int == x % torus(),
{
    lemma_mod_bound(x, torus());
}

pub proof fn lemma_wrapping_add(a: u64, b: u64)
    ensures
        a.wrapping_add(b) == t64(a + b),
{
    if a + b >= torus() {
        lemma_mod_sub_multiples_vanish(a + b - torus(), torus());
        lemma_small_mod((a + b - torus()) as nat, torus() as nat);
    } else {
        lemma_small_mod((a + b) as nat, torus() as nat);
    }
}

pub proof fn lemma_wrapping_sub(a: u64, b: u64)
    ensures
        a.wrapping_sub(b) == t64(a - b),
{
    if a - b < 0 {
        lemma_mod_add_multiples_vanish(a - b, torus());
        lemma_small_mod((a - b + torus()) as nat, torus() as nat);
    } else {
        lemma_small_mod((a - b) as nat, torus() as nat);
    }
}

pub proof fn lemma_wrapping_mul(a: u64, b: u64)
    ensures
        a.wrapping_mul(b) == t64(a * b),
{
}

/// Exact power of two as a `u128`.
pub fn pow2_u128(e: u32) -> (r: u128)
    requires
        e <= 64,
    ensures
        r as nat == pow2(e as nat),
{
    let mut r: u128 = 1;
    let mut i: u32 = 0;
    proof {
        lemma_pow2_0();
    }
    while i < e
        invariant
            i <= e <= 64,
            r as nat == pow2(i as nat),
        decreases e - i,
    {
        proof {
            lemma_pow2_unfold((i + 1) as nat);
            lemma_pow2_strictly_increases((i + 1) as nat, 65);
            lemma2_to64_rest();
            assert(pow2(65) == 2 * pow2(64)) by {
                lemma_pow2_unfold(65);
            }
        }
        r = r * 2;
        i = i + 1;
    }
    r
}

pub proof fn lemma_pow2_0()
    ensures
        pow2(0) == 1,
{
    lemma2_to64();
}

} // verus!

verus! {

/// A copy of `v[start..stop]`.
pub fn copy_range(v: &Vec<u64>, start: usize, stop: usize) -> (r: Vec<u64>)
    requires
        start <= stop <= v.len(),
    ensures
        r@ == v@.subrange(start as int, stop as int),
{
    let mut r: Vec<u64> = Vec::with_capacity(stop - start);
    let mut i: usize = start;
    while i < stop
        invariant
            start <= i <= stop <= v.len(),
            r@ == v@.subrange(start as int, i as int),
        decreases stop - i,
    {
        r.push(v[i]);
        i = i + 1;
        assert(r@ =~= v@.subrange(start as int, i as int));
    }
    r
}

/// Overwrites `dst[start..start + src.len()]` with `src`.
pub fn write_range(dst: &mut Vec<u64>, start: usize, src: &Vec<u64>)
    requires
        start + src.len() <= old(dst).len(),
    ensures
        final(dst).len() == old(dst).len(),
        final(dst)@ == old(dst)@.subrange(0, start as int) + src@ + old(dst)@.subrange(
            start + src.len(),
            old(dst).len() as int,
        ),
{
    let mut i: usize = 0;
    while i < src.len()
        invariant
            start + src.len() <= dst.len() == old(dst).len(),
            i <= src.len(),
            forall|j: int| 0 <= j < start ==> #[trigger] dst@[j] == old(dst)@[j],
            forall|j: int| start <= j < start + i ==> #[trigger] dst@[j] == src@[j - start],
            forall|j: int| start + i <= j < dst.len() ==> #[trigger] dst@[j] == old(dst)@[j],
        decreases src.len() - i,
    {
        dst.set(start + i, src[i]);
        i = i + 1;
    }
    assert(dst@ =~= old(dst)@.subrange(0, start as int) + src@ + old(dst)@.subrange(
        start + src.len(),
        old(dst).len() as int,
    ));
}

} // verus!

verus! {

pub proof fn lemma_t64_add(x: int, y: int)
    ensures
        t64(t64(x) + t64(y)) == t64(x + y),
        t64(t64(x) - t64(y)) == t64(x - y),
        t64(t64(x) as int) == t64(x),
{
    lemma_t64_bounds(x);
    lemma_t64_bounds(y);
    lemma_add_mod_noop(x, y, torus());
    lemma_sub_mod_noop(x, y, torus());
    lemma_mod_twice(x, torus());
}

} // verus!

verus! {

/// Position `x` of a flat buffer of chunks of `n` lies in chunk `j` at offset `x - j*n`.
pub proof fn lemma_chunk_index(x: int, j: int, n: int)
    requires
        n > 0,
        0 <= j,
        j * n <= x < j * n + n,
    ensures
        x / n == j,
        x % n == x - j * n,
{
    vstd::arithmetic::div_mod::lemma_fundamental_div_mod_converse(x, n, j, x - j * n);
}

/// Chunk `j < k` of `k` chunks of `n` lies inside the buffer of `k * n`.
pub proof fn lemma_chunk_bounds(j: int, k: int, n: int)
    requires
        0 <= j < k,
        n > 0,
    ensures
        0 <= j * n,
        j * n + n <= k * n,
        (j + 1) * n == j * n + n,
{
    assert(0 <= j * n) by (nonlinear_arith)
        requires
            0 <= j,
            n > 0,
    ;
    assert(j * n + n <= k * n) by (nonlinear_arith)
        requires
            j + 1 <= k,
            n > 0,
    ;
    assert((j + 1) * n == j * n + n) by (nonlinear_arith);
}

} // verus!
