use vstd::prelude::*;
use vstd::math::min;
use vstd::seq_lib::*;

verus! {

/// Number of query indices per chunk when `n` indices are split into
/// `num_chunks` chunks: the ceiling of `n / num_chunks`.
pub open spec fn chunk_size(n: int, num_chunks: int) -> int
    recommends
        num_chunks >= 1,
{
    (n + num_chunks - 1) / num_chunks
}

/// Start of chunk `i`, clamped to `n`.
pub open spec fn chunk_start(n: int, num_chunks: int, i: int) -> int {
    min(i * chunk_size(n, num_chunks), n)
}

/// Partitions the index range `[0, n)` into `num_chunks` contiguous chunks:
/// each chunk holds `chunk_size` indices, except that trailing chunks are
/// clamped to `n` (so the last non-empty chunk may be smaller, and chunks
/// after it are empty).
///
/// Chunk `i` is the half-open range `r[i].0 .. r[i].1`.
pub fn chunk_bounds(n: usize, num_chunks: usize) -> (r: Vec<(usize, usize)>)
    requires
        num_chunks >= 1,
    ensures
        r@.len() == num_chunks,
        forall|i: int|
            0 <= i < num_chunks ==> (#[trigger] r@[i]).0 == chunk_start(
                n as int,
                num_chunks as int,
                i,
            ) && r@[i].1 == chunk_start(n as int, num_chunks as int, i + 1),
        forall|i: int| 0 <= i < num_chunks ==> (#[trigger] r@[i]).0 <= r@[i].1 <= n,
        r@[0].0 == 0,
        r@[num_chunks - 1].1 == n,
        forall|i: int| 0 < i < num_chunks ==> (#[trigger] r@[i]).0 == r@[i - 1].1,
{
    let size: usize = if n == 0 {
        0
    } else {
        (n - 1) / num_chunks + 1
    };
    proof {
        if n == 0 {
            vstd::arithmetic::div_mod::lemma_basic_div(num_chunks as int - 1, num_chunks as int);
        } else {
            vstd::arithmetic::div_mod::lemma_div_plus_one(n as int - 1, num_chunks as int);
            assert((n - 1) / (num_chunks as int) + 1 <= n) by {
                vstd::arithmetic::div_mod::lemma_div_nonincreasing(n as int - 1, num_chunks as int);
            }
        }
        assert(size == chunk_size(n as int, num_chunks as int));
    }
    let mut r: Vec<(usize, usize)> = Vec::new();
    let mut start: usize = 0;
    let mut i: usize = 0;
    while i < num_chunks
        invariant
            i <= num_chunks,
            r@.len() == i,
            size == chunk_size(n as int, num_chunks as int),
            start == chunk_start(n as int, num_chunks as int, i as int),
            start <= n,
            forall|j: int| 0 <= j < i ==> (#[trigger] r@[j]).0 <= r@[j].1 <= n,
            forall|j: int| 0 < j < i ==> (#[trigger] r@[j]).0 == r@[j - 1].1,
            i > 0 ==> r@[0].0 == 0 && r@[i - 1].1 == start,
            forall|j: int|
                0 <= j < i ==> (#[trigger] r@[j]).0 == chunk_start(
                    n as int,
                    num_chunks as int,
                    j,
                ) && r@[j].1 == chunk_start(n as int, num_chunks as int, j + 1),
        decreases num_chunks - i,
    {
        let end: usize = if n - start > size {
            start + size
        } else {
            n
        };
        proof {
            let ni = n as int;
            let ci = num_chunks as int;
            let ii = i as int;
            let s = chunk_size(ni, ci);
            assert((ii + 1) * s == ii * s + s) by (nonlinear_arith);
            assert(s >= 0) by {
                assert(ni + ci - 1 >= 0);
                vstd::arithmetic::div_mod::lemma_div_pos_is_pos(ni + ci - 1, ci);
            }
            assert(ii * s <= (ii + 1) * s) by (nonlinear_arith)
                requires
                    s >= 0,
            ;
            assert(end == chunk_start(ni, ci, ii + 1));
        }
        r.push((start, end));
        start = end;
        i = i + 1;
    }
    proof {
        let ni = n as int;
        let ci = num_chunks as int;
        let s = chunk_size(ni, ci);
        assert(ci * s >= ni) by {
            vstd::arithmetic::div_mod::lemma_fundamental_div_mod(ni + ci - 1, ci);
            vstd::arithmetic::div_mod::lemma_mod_bound(ni + ci - 1, ci);
            assert(ci * s == ni + ci - 1 - (ni + ci - 1) % ci);
        }
        assert(r@[ci - 1].1 == chunk_start(ni, ci, ci));
        assert(ci * s >= ni ==> min(ci * s, ni) == ni);
        assert(r@[0].0 == min(0 * s, ni));
        assert(0 * s == 0) by (nonlinear_arith);
    }
    r
}

/// The slices of `s` selected by `bounds`, in chunk order.
pub open spec fn chunk_slices<T>(s: Seq<T>, bounds: Seq<(usize, usize)>) -> Seq<Seq<T>> {
    Seq::new(bounds.len(), |i: int| s.subrange(bounds[i].0 as int, bounds[i].1 as int))
}

/// Chunking is purely a memory-bounding device: when the chunk bounds cover
/// `[0, s.len())` contiguously and in increasing order, the chunk slices,
/// concatenated in chunk order, are exactly the original sequence.  In
/// particular the concatenation has exactly `s.len()` elements, in the same
/// order as `s`, regardless of the number of chunks.
pub proof fn lemma_chunks_preserve_order<T>(s: Seq<T>, bounds: Seq<(usize, usize)>)
    requires
        forall|i: int| 0 <= i < bounds.len() ==> (#[trigger] bounds[i]).0 <= bounds[i].1 <= s.len(),
        bounds.len() > 0 ==> bounds[0].0 == 0 && bounds[bounds.len() - 1].1 == s.len(),
        bounds.len() == 0 ==> s.len() == 0,
        forall|i: int| 0 < i < bounds.len() ==> (#[trigger] bounds[i]).0 == bounds[i - 1].1,
    ensures
        chunk_slices(s, bounds).flatten() == s,
{
    if bounds.len() == 0 {
        assert(chunk_slices(s, bounds).flatten() =~= s);
    } else {
        lemma_chunk_slices_from(s, bounds, 0);
        assert(s.subrange(0, s.len() as int) =~= s);
    }
}

proof fn lemma_chunk_slices_from<T>(s: Seq<T>, bounds: Seq<(usize, usize)>, lo: int)
    requires
        forall|i: int| 0 <= i < bounds.len() ==> (#[trigger] bounds[i]).0 <= bounds[i].1 <= s.len(),
        bounds.len() > 0 ==> bounds[0].0 == lo && bounds[bounds.len() - 1].1 == s.len(),
        bounds.len() == 0 ==> lo == s.len(),
        forall|i: int| 0 < i < bounds.len() ==> (#[trigger] bounds[i]).0 == bounds[i - 1].1,
        0 <= lo <= s.len(),
    ensures
        chunk_slices(s, bounds).flatten() == s.subrange(lo, s.len() as int),
    decreases bounds.len(),
{
    if bounds.len() == 0 {
        assert(chunk_slices(s, bounds).flatten() =~= s.subrange(lo, s.len() as int));
    } else {
        let first = chunk_slices(s, bounds).first();
        let rest = bounds.drop_first();
        let hi = bounds[0].1 as int;
        lemma_chunk_slices_from(s, rest, hi);
        assert(chunk_slices(s, bounds).drop_first() =~= chunk_slices(s, rest));
        assert(chunk_slices(s, bounds).flatten() == first + chunk_slices(s, rest).flatten());
        assert(first + s.subrange(hi, s.len() as int) =~= s.subrange(lo, s.len() as int));
    }
}

} // verus!
