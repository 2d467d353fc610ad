//! Sizing of the working memory of the CMUX, blind rotation and bootstrap, computed from
//! the shape parameters alone.
use crate::bootstrap::is_power_of_two;
use vstd::prelude::*;

verus! {

/// The alignment of the working buffers: one cache line.
pub const CACHELINE_ALIGN: usize = 64;

/// A memory requirement: `size_bytes` bytes aligned to `align_bytes`.
#[derive(Clone, Copy, Debug, PartialEq, Eq, Structural)]
pub struct ScratchRequirement {
    pub size_bytes: usize,
    pub align_bytes: usize,
}

/// The size computation does not fit in `usize`.
#[derive(Clone, Copy, Debug, PartialEq, Eq, Structural)]
pub struct SizeOverflow;

/// `a` rounded up to a multiple of `b`.
pub open spec fn round_up(a: int, b: int) -> int {
    ((a + b - 1) / b) * b
}

/// `n` values of `u64` aligned to `align`.
pub open spec fn u64_requirement(n: usize, align: usize) -> Result<ScratchRequirement, SizeOverflow> {
    if 8 * n <= usize::MAX {
        Ok(ScratchRequirement { size_bytes: (8 * n) as usize, align_bytes: align })
    } else {
        Err(SizeOverflow)
    }
}

/// Room for both `a` and `b` at once: the larger alignment, and both sizes rounded up to
/// it, added.
pub open spec fn both(
    a: Result<ScratchRequirement, SizeOverflow>,
    b: Result<ScratchRequirement, SizeOverflow>,
) -> Result<ScratchRequirement, SizeOverflow> {
    match (a, b) {
        (Ok(x), Ok(y)) => {
            let align = if x.align_bytes > y.align_bytes {
                x.align_bytes
            } else {
                y.align_bytes
            };
            let sx = round_up(x.size_bytes as int, align as int);
            let sy = round_up(y.size_bytes as int, align as int);
            if x.size_bytes + align - 1 <= usize::MAX && y.size_bytes + align - 1 <= usize::MAX && sx + sy
                <= usize::MAX {
                Ok(ScratchRequirement { size_bytes: (sx + sy) as usize, align_bytes: align })
            } else {
                Err(SizeOverflow)
            }
        },
        _ => Err(SizeOverflow),
    }
}

/// Relies on dyn_stack's `StackReq::try_new_aligned::<u64>`: `n` values of 8 bytes at
/// alignment `align`, or `SizeOverflow` when `8 * n` overflows.
#[verifier::external_body]
fn try_new_aligned_u64(n: usize, align: usize) -> (r: Result<ScratchRequirement, SizeOverflow>)
    requires
        align >= 8,
        is_power_of_two(align as nat),
    ensures
        r == u64_requirement(n, align),
{
    match dyn_stack::StackReq::try_new_aligned::<u64>(n, align) {
        Ok(req) => Ok(ScratchRequirement { size_bytes: req.size_bytes(), align_bytes: req.align_bytes() }),
        Err(_) => Err(SizeOverflow),
    }
}

/// Relies on dyn_stack's `StackReq::try_and`: the larger alignment, and the two sizes each
/// rounded up to it and added, or `SizeOverflow` when a step overflows. The two requirements
/// are handed over as `try_new_aligned::<u8>` of their sizes and alignments.
#[verifier::external_body]
fn try_and(a: ScratchRequirement, b: ScratchRequirement) -> (r: Result<ScratchRequirement, SizeOverflow>)
    requires
        is_power_of_two(a.align_bytes as nat),
        is_power_of_two(b.align_bytes as nat),
    ensures
        r == both(Ok(a), Ok(b)),
{
    let x = dyn_stack::StackReq::try_new_aligned::<u8>(a.size_bytes, a.align_bytes);
    let y = dyn_stack::StackReq::try_new_aligned::<u8>(b.size_bytes, b.align_bytes);
    match (x, y) {
        (Ok(x), Ok(y)) => match x.try_and(y) {
            Ok(req) => Ok(ScratchRequirement { size_bytes: req.size_bytes(), align_bytes: req.align_bytes() }),
            Err(_) => Err(SizeOverflow),
        },
        _ => Err(SizeOverflow),
    }
}

proof fn lemma_cacheline_align()
    ensures
        is_power_of_two(CACHELINE_ALIGN as nat),
{
    vstd::arithmetic::power2::lemma2_to64();
    assert(vstd::arithmetic::power2::pow2(6) == 64);
}

/// `n` values of `u64` on a cache line.
fn cacheline_u64(n: usize) -> (r: Result<ScratchRequirement, SizeOverflow>)
    ensures
        r == u64_requirement(n, CACHELINE_ALIGN),
        r is Ok ==> is_power_of_two(r->Ok_0.align_bytes as nat),
{
    proof {
        lemma_cacheline_align();
    }
    try_new_aligned_u64(n, CACHELINE_ALIGN)
}

/// Room for both `a` and `b`.
fn and(a: Result<ScratchRequirement, SizeOverflow>, b: Result<ScratchRequirement, SizeOverflow>) -> (r: Result<
    ScratchRequirement,
    SizeOverflow,
>)
    requires
        a is Ok ==> is_power_of_two(a->Ok_0.align_bytes as nat),
        b is Ok ==> is_power_of_two(b->Ok_0.align_bytes as nat),
    ensures
        r == both(a, b),
        r is Ok ==> is_power_of_two(r->Ok_0.align_bytes as nat),
{
    match (a, b) {
        (Ok(x), Ok(y)) => try_and(x, y),
        _ => Err(SizeOverflow),
    }
}

/// The working memory of a CMUX: the difference `ct1 - ct0`, the external product being
/// summed and one row's contribution (`K * N` values each), then a digit polynomial, a GGSW
/// polynomial and their product (`N` values each).
pub open spec fn cmux_requirement(glwe_size: usize, polynomial_size: usize) -> Result<ScratchRequirement, SizeOverflow> {
    let glwe = (glwe_size * polynomial_size) as usize;
    both(
        both(
            both(u64_requirement(glwe, CACHELINE_ALIGN), u64_requirement(glwe, CACHELINE_ALIGN)),
            u64_requirement(glwe, CACHELINE_ALIGN),
        ),
        both(
            both(u64_requirement(polynomial_size, CACHELINE_ALIGN), u64_requirement(polynomial_size, CACHELINE_ALIGN)),
            u64_requirement(polynomial_size, CACHELINE_ALIGN),
        ),
    )
}

/// The working memory of a blind rotation: the rotated accumulator and one CMUX.
pub open spec fn blind_rotate_requirement(glwe_size: usize, polynomial_size: usize) -> Result<ScratchRequirement, SizeOverflow> {
    both(
        u64_requirement((glwe_size * polynomial_size) as usize, CACHELINE_ALIGN),
        cmux_requirement(glwe_size, polynomial_size),
    )
}

/// The working memory of a bootstrap: a blind rotation and the local accumulator.
pub open spec fn bootstrap_requirement(glwe_size: usize, polynomial_size: usize) -> Result<ScratchRequirement, SizeOverflow> {
    both(
        blind_rotate_requirement(glwe_size, polynomial_size),
        u64_requirement((glwe_size * polynomial_size) as usize, CACHELINE_ALIGN),
    )
}

/// The memory that a CMUX works in.
pub fn cmux_scratch(glwe_size: usize, polynomial_size: usize) -> (r: Result<ScratchRequirement, SizeOverflow>)
    requires
        glwe_size * polynomial_size <= usize::MAX,
    ensures
        r == cmux_requirement(glwe_size, polynomial_size),
        r is Ok ==> is_power_of_two(r->Ok_0.align_bytes as nat),
{
    let glwe = glwe_size * polynomial_size;
    let big = and(and(cacheline_u64(glwe), cacheline_u64(glwe)), cacheline_u64(glwe));
    let small = and(
        and(cacheline_u64(polynomial_size), cacheline_u64(polynomial_size)),
        cacheline_u64(polynomial_size),
    );
    and(big, small)
}

/// The memory that `FourierLweBootstrapKey::blind_rotate_assign` works in.
pub fn blind_rotate_scratch(glwe_size: usize, polynomial_size: usize) -> (r: Result<ScratchRequirement, SizeOverflow>)
    requires
        glwe_size * polynomial_size <= usize::MAX,
    ensures
        r == blind_rotate_requirement(glwe_size, polynomial_size),
        r is Ok ==> is_power_of_two(r->Ok_0.align_bytes as nat),
{
    let glwe = glwe_size * polynomial_size;
    and(cacheline_u64(glwe), cmux_scratch(glwe_size, polynomial_size))
}

/// The memory that `FourierLweBootstrapKey::bootstrap` works in.
pub fn bootstrap_scratch(glwe_size: usize, polynomial_size: usize) -> (r: Result<ScratchRequirement, SizeOverflow>)
    requires
        glwe_size * polynomial_size <= usize::MAX,
    ensures
        r == bootstrap_requirement(glwe_size, polynomial_size),
{
    let glwe = glwe_size * polynomial_size;
    and(blind_rotate_scratch(glwe_size, polynomial_size), cacheline_u64(glwe))
}

} // verus!
