//! A flat buffer seen as a sequence of equally sized entities (ciphertexts, polynomials).
use crate::arith::copy_range;
use rayon::iter::ParallelIterator;
use rayon::slice::ParallelSlice;
use vstd::arithmetic::div_mod::*;
use vstd::arithmetic::mul::*;
use vstd::prelude::*;

verus! {

/// `data` holds `data.len() / entity_stride` entities of `entity_stride` scalars each, back to back.
#[derive(Clone, Debug)]
pub struct ContiguousEntityContainer {
    pub data: Vec<u64>,
    pub entity_stride: usize,
}

impl ContiguousEntityContainer {
    pub open spec fn wf(&self) -> bool {
        self.entity_stride > 0 && self.data.len() % self.entity_stride == 0
    }

    pub open spec fn count(&self) -> nat {
        (self.data.len() / self.entity_stride) as nat
    }

    /// The scalars of entity `i`.
    pub open spec fn entity(&self, i: int) -> Seq<u64> {
        self.data@.subrange(i * self.entity_stride, (i + 1) * self.entity_stride)
    }

    /// All entities, in order.
    pub open spec fn entities(&self) -> Seq<Seq<u64>> {
        Seq::new(self.count(), |i: int| self.entity(i))
    }

    pub proof fn lemma_entity_in_bounds(&self, i: int)
        requires
            self.wf(),
            0 <= i < self.count(),
        ensures
            0 <= i * self.entity_stride,
            (i + 1) * self.entity_stride <= self.data.len(),
            (i + 1) * self.entity_stride == i * self.entity_stride + self.entity_stride,
    {
        let s = self.entity_stride as int;
        let n = self.data.len() as int;
        lemma_fundamental_div_mod(n, s);
        let c = n / s;
        assert(n == s * c);
        assert(0 <= i * s) by (nonlinear_arith)
            requires
                0 <= i,
                0 < s,
        ;
        assert((i + 1) * s <= c * s) by (nonlinear_arith)
            requires
                i + 1 <= c,
                0 < s,
        ;
        lemma_mul_is_distributive_add_other_way(s, i, 1);
    }

    /// Wraps `data` as entities of `entity_stride` scalars.
    pub fn from_container(data: Vec<u64>, entity_stride: usize) -> (r: Self)
        requires
            entity_stride > 0,
            data.len() % entity_stride == 0,
        ensures
            r.wf(),
            r.data == data,
            r.entity_stride == entity_stride,
    {
        ContiguousEntityContainer { data, entity_stride }
    }

    /// The number of entities.
    pub fn entity_count(&self) -> (r: usize)
        requires
            self.wf(),
        ensures
            r == self.count(),
            r * self.entity_stride == self.data.len(),
    {
        proof {
            lemma_fundamental_div_mod(self.data.len() as int, self.entity_stride as int);
            lemma_mul_is_commutative(self.entity_stride as int, (self.data.len() / self.entity_stride) as int);
        }
        self.data.len() / self.entity_stride
    }

    /// A copy of entity `index`.
    pub fn get(&self, index: usize) -> (r: Vec<u64>)
        requires
            self.wf(),
            index < self.count(),
        ensures
            r@ == self.entity(index as int),
    {
        proof {
            self.lemma_entity_in_bounds(index as int);
        }
        let start = index * self.entity_stride;
        copy_range(&self.data, start, start + self.entity_stride)
    }

    /// The last entity, `None` when there is none.
    pub fn last(&self) -> (r: Option<Vec<u64>>)
        requires
            self.wf(),
        ensures
            r is None <==> self.count() == 0,
            r is Some ==> r->0@ == self.entity(self.count() - 1),
    {
        let count = self.entity_count();
        if count == 0 {
            None
        } else {
            Some(self.get(count - 1))
        }
    }

    /// The first `mid` entities and the rest, as two containers of the same stride.
    pub fn split_at(&self, mid: usize) -> (r: (Self, Self))
        requires
            self.wf(),
            mid <= self.count(),
        ensures
            r.0.wf(),
            r.1.wf(),
            r.0.entity_stride == self.entity_stride,
            r.1.entity_stride == self.entity_stride,
            r.0.data@ == self.data@.subrange(0, mid * self.entity_stride),
            r.1.data@ == self.data@.subrange(mid * self.entity_stride, self.data.len() as int),
            r.0.count() == mid,
            r.1.count() == self.count() - mid,
    {
        let s = self.entity_stride;
        let count = self.entity_count();
        proof {
            assert(mid * s <= count * s) by (nonlinear_arith)
                requires
                    mid <= count,
            ;
            assert(count * s - mid * s == (count - mid) * s) by (nonlinear_arith);
            lemma_mod_multiples_basic(mid as int, s as int);
            lemma_mod_multiples_basic((count - mid) as int, s as int);
            lemma_div_multiples_vanish(mid as int, s as int);
            lemma_div_multiples_vanish((count - mid) as int, s as int);
            lemma_mul_is_commutative(mid as int, s as int);
            lemma_mul_is_commutative((count - mid) as int, s as int);
        }
        let left = copy_range(&self.data, 0, mid * s);
        let right = copy_range(&self.data, mid * s, self.data.len());
        (
            ContiguousEntityContainer { data: left, entity_stride: s },
            ContiguousEntityContainer { data: right, entity_stride: s },
        )
    }

    /// Copies of all entities, in order.
    pub fn iter(&self) -> (r: Vec<Vec<u64>>)
        requires
            self.wf(),
        ensures
            r.len() == self.count(),
            forall|i: int| 0 <= i < r.len() ==> #[trigger] r[i]@ == self.entity(i),
    {
        let count = self.entity_count();
        let mut r: Vec<Vec<u64>> = Vec::with_capacity(count);
        let mut i: usize = 0;
        while i < count
            invariant
                self.wf(),
                count == self.count(),
                i <= count,
                r.len() == i,
                forall|j: int| 0 <= j < i ==> #[trigger] r[j]@ == self.entity(j),
            decreases count - i,
        {
            r.push(self.get(i));
            i = i + 1;
        }
        r
    }

    /// Consecutive groups of `chunk_size` entities, each as a container of the same stride.
    pub fn chunks_exact(&self, chunk_size: usize) -> (r: Vec<Self>)
        requires
            self.wf(),
            chunk_size > 0,
            self.count() % (chunk_size as nat) == 0,
            chunk_size * self.entity_stride <= usize::MAX,
        ensures
            r.len() == self.count() / (chunk_size as nat),
            forall|i: int|
                0 <= i < r.len() ==> (#[trigger] r[i]).wf() && r[i].entity_stride
                    == self.entity_stride && r[i].data@ == self.data@.subrange(
                    i * chunk_size * self.entity_stride,
                    (i + 1) * chunk_size * self.entity_stride,
                ),
    {
        let s = self.entity_stride;
        let width = chunk_size * s;
        let grouped = ContiguousEntityContainer { data: self.data.clone(), entity_stride: width };
        let count = self.entity_count();
        proof {
            let c = count as int;
            let k = chunk_size as int;
            lemma_fundamental_div_mod(c, k);
            let g = c / k;
            assert(k * s > 0) by (nonlinear_arith)
                requires
                    k > 0,
                    s > 0,
            ;
            assert(self.data.len() == c * s);
            assert(c * s == g * (k * s)) by (nonlinear_arith)
                requires
                    c == k * g,
            ;
            lemma_mod_multiples_basic(g, k * s);
            lemma_div_multiples_vanish(g, k * s);
            lemma_mul_is_commutative(g, k * s);
            assert(grouped.data@ == self.data@);
        }
        let pieces = grouped.iter();
        let mut r: Vec<Self> = Vec::with_capacity(pieces.len());
        let mut i: usize = 0;
        while i < pieces.len()
            invariant
                grouped.wf(),
                grouped.data@ == self.data@,
                grouped.entity_stride == width == chunk_size * s,
                s == self.entity_stride,
                s > 0,
                chunk_size > 0,
                pieces.len() == grouped.count(),
                forall|j: int| 0 <= j < pieces.len() ==> #[trigger] pieces[j]@ == grouped.entity(j),
                i <= pieces.len(),
                r.len() == i,
                forall|j: int|
                    0 <= j < i ==> (#[trigger] r[j]).wf() && r[j].entity_stride == s && r[j].data@
                        == self.data@.subrange(j * chunk_size * s, (j + 1) * chunk_size * s),
            decreases pieces.len() - i,
        {
            let piece = pieces[i].clone();
            proof {
                lemma_mod_multiples_basic(chunk_size as int, s as int);
                lemma_mul_is_associative(i as int, chunk_size as int, s as int);
                lemma_mul_is_associative(i + 1, chunk_size as int, s as int);
                assert(piece.len() == width) by {
                    grouped.lemma_entity_in_bounds(i as int);
                }
            }
            r.push(ContiguousEntityContainer { data: piece, entity_stride: s });
            i = i + 1;
        }
        proof {
            lemma_fundamental_div_mod(count as int, chunk_size as int);
            let g = count as int / chunk_size as int;
            assert(chunk_size * s > 0) by (nonlinear_arith)
                requires
                    chunk_size > 0,
                    s > 0,
            ;
            assert(self.data.len() == g * (chunk_size * s)) by (nonlinear_arith)
                requires
                    self.data.len() == count * s,
                    count == chunk_size * g,
            ;
            lemma_div_multiples_vanish(g, chunk_size * s);
            lemma_mul_is_commutative(g, chunk_size * s);
        }
        r
    }

    /// Copies of all entities, in order, gathered on rayon's thread pool.
    pub fn par_iter(&self) -> (r: Vec<Vec<u64>>)
        requires
            self.wf(),
        ensures
            r.len() == self.count(),
            forall|i: int| 0 <= i < r.len() ==> #[trigger] r[i]@ == self.entity(i),
    {
        par_chunks(&self.data, self.entity_stride)
    }
}

/// A copy of a slice.
pub fn entity_from_slice(s: &[u64]) -> (r: Vec<u64>)
    ensures
        r@ == s@,
{
    let mut r: Vec<u64> = Vec::with_capacity(s.len());
    let mut i: usize = 0;
    while i < s.len()
        invariant
            i <= s.len(),
            r@ == s@.subrange(0, i as int),
        decreases s.len() - i,
    {
        r.push(s[i]);
        i = i + 1;
        assert(r@ =~= s@.subrange(0, i as int));
    }
    assert(r@ =~= s@);
    r
}

/// Relies on rayon's `par_chunks_exact` with `collect` into a `Vec`: the chunks of
/// `stride` consecutive elements, in order, with any remainder left out.
#[verifier::external_body]
fn par_chunks(data: &Vec<u64>, stride: usize) -> (r: Vec<Vec<u64>>)
    requires
        stride > 0,
    ensures
        r.len() == data.len() / stride,
        forall|i: int|
            0 <= i < r.len() ==> #[trigger] r[i]@ == data@.subrange(
                i * stride,
                (i + 1) * stride,
            ),
{
    data.as_slice().par_chunks_exact(stride).map(entity_from_slice).collect()
}

/// A flat buffer read as entities satisfies: the entity count times the stride is the
/// buffer length; splitting at any entity boundary and concatenating the two halves gives
/// the buffer back; and the `i`-th entity read directly is the `i`-th entity of the
/// sequence of all entities.
pub proof fn lemma_container_view_invariants(c: ContiguousEntityContainer, mid: nat)
    requires
        c.wf(),
        mid <= c.count(),
    ensures
        c.count() * c.entity_stride == c.data.len(),
        c.data@.subrange(0, mid * c.entity_stride) + c.data@.subrange(
            mid * c.entity_stride,
            c.data.len() as int,
        ) == c.data@,
        forall|i: int| 0 <= i < c.count() ==> #[trigger] c.entities()[i] == c.entity(i),
{
    lemma_fundamental_div_mod(c.data.len() as int, c.entity_stride as int);
    lemma_mul_is_commutative(c.count() as int, c.entity_stride as int);
    assert(mid * c.entity_stride <= c.count() * c.entity_stride) by (nonlinear_arith)
        requires
            mid <= c.count(),
    ;
    assert(c.data@.subrange(0, mid * c.entity_stride) + c.data@.subrange(
        mid * c.entity_stride,
        c.data.len() as int,
    ) =~= c.data@);
}

} // verus!
