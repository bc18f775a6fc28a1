//! The fused softmax kernel: one numerically stable pass over a row, and
//! batch drivers that run it over every fixed-width row of a flat buffer.
//!
//! The scalar type and the scalar operations are parameters: the kernel is
//! verified for every choice of them. A caller supplies the strict-order
//! test used by the max scan, the shifted exponential, the accumulator,
//! the reciprocal and the rescaling step, together with the two fold seeds
//! (the lowest scalar for the max scan and the zero for the sum). The
//! contracts pin the exact dataflow of the algorithm: a max fold over the
//! row, one shifted exponential per element, a left-to-right sum of those
//! exponentials, one reciprocal of the sum, and one rescaling per element.

use vstd::prelude::*;

use rayon::iter::IndexedParallelIterator;
use rayon::iter::ParallelIterator;
use rayon::slice::ParallelSlice;
use rayon::slice::ParallelSliceMut;

use crate::error::SoftmaxError;

verus! {

/// Every scalar operation may be called on any operands.
pub open spec fn ops_total<T, FLt, FEs, FAcc, FRcp, FScl>(
    lt: FLt,
    exp_shift: FEs,
    accum: FAcc,
    recip: FRcp,
    rescale: FScl,
) -> bool where
    FLt: Fn(T, T) -> bool,
    FEs: Fn(T, T) -> T,
    FAcc: Fn(T, T) -> T,
    FRcp: Fn(T) -> T,
    FScl: Fn(T, T) -> T,
{
    &&& forall|a: T, b: T| #[trigger] call_requires(lt, (a, b))
    &&& forall|a: T, b: T| #[trigger] call_requires(exp_shift, (a, b))
    &&& forall|a: T, b: T| #[trigger] call_requires(accum, (a, b))
    &&& forall|a: T| #[trigger] call_requires(recip, (a,))
    &&& forall|a: T, b: T| #[trigger] call_requires(rescale, (a, b))
}

/// `m` is a possible result of folding the strict-order test `lt` over
/// `row` from the left, starting at `seed` and keeping the greater value:
/// the first pass of the kernel.
pub open spec fn max_scan<T, FLt>(lt: FLt, row: Seq<T>, seed: T, m: T) -> bool where
    FLt: Fn(T, T) -> bool,
    decreases row.len(),
{
    if row.len() == 0 {
        m == seed
    } else {
        exists|prev: T, took: bool|
            #[trigger] call_ensures(lt, (prev, row.last()), took)
            && max_scan(lt, row.drop_last(), seed, prev)
            && m == (if took { row.last() } else { prev })
    }
}

/// `e` is a possible image of `row` under the shifted exponential with
/// shift `m`: the second pass, one call per element, in place.
pub open spec fn exp_row_rel<T, FEs>(exp_shift: FEs, row: Seq<T>, m: T, e: Seq<T>) -> bool where
    FEs: Fn(T, T) -> T,
{
    &&& e.len() == row.len()
    &&& forall|i: int| 0 <= i < row.len() ==> call_ensures(exp_shift, (row[i], m), #[trigger] e[i])
}

/// `total` is a possible left-to-right accumulation of `vals` starting at
/// `seed`: the running denominator of the second pass.
pub open spec fn sum_scan<T, FAcc>(accum: FAcc, vals: Seq<T>, seed: T, total: T) -> bool where
    FAcc: Fn(T, T) -> T,
    decreases vals.len(),
{
    if vals.len() == 0 {
        total == seed
    } else {
        exists|prev: T|
            #[trigger] call_ensures(accum, (prev, vals.last()), total)
            && sum_scan(accum, vals.drop_last(), seed, prev)
    }
}

/// `out` is a possible rescaling of `e` by the single factor `inv`: the
/// third pass, one multiplication per element in place of a division.
pub open spec fn scaled_rel<T, FScl>(rescale: FScl, e: Seq<T>, inv: T, out: Seq<T>) -> bool where
    FScl: Fn(T, T) -> T,
{
    &&& out.len() == e.len()
    &&& forall|i: int| 0 <= i < e.len() ==> call_ensures(rescale, (e[i], inv), #[trigger] out[i])
}

/// The row contract: `out` arises from `row` by the exact algorithm — max
/// fold from `lowest`, shifted exponentials, sum fold from `zero`, one
/// reciprocal, one rescaling per element.
pub open spec fn softmax_row_rel<T, FLt, FEs, FAcc, FRcp, FScl>(
    lt: FLt,
    exp_shift: FEs,
    accum: FAcc,
    recip: FRcp,
    rescale: FScl,
    lowest: T,
    zero: T,
    row: Seq<T>,
    out: Seq<T>,
) -> bool where
    FLt: Fn(T, T) -> bool,
    FEs: Fn(T, T) -> T,
    FAcc: Fn(T, T) -> T,
    FRcp: Fn(T) -> T,
    FScl: Fn(T, T) -> T,
{
    exists|m: T, e: Seq<T>, denom: T, inv: T|
        #![trigger max_scan(lt, row, lowest, m), sum_scan(accum, e, zero, denom), call_ensures(recip, (denom,), inv)]
        max_scan(lt, row, lowest, m)
        && exp_row_rel(exp_shift, row, m, e)
        && sum_scan(accum, e, zero, denom)
        && call_ensures(recip, (denom,), inv)
        && scaled_rel(rescale, e, inv, out)
}

/// Extending a max scan by one element keeps the relation.
proof fn lemma_max_scan_step<T, FLt>(lt: FLt, row: Seq<T>, seed: T, prev: T, x: T, took: bool) where
    FLt: Fn(T, T) -> bool,
    requires
        max_scan(lt, row, seed, prev),
        call_ensures(lt, (prev, x), took),
    ensures
        max_scan(lt, row.push(x), seed, (if took { x } else { prev })),
{
    assert(row.push(x).drop_last() =~= row);
    assert(row.push(x).last() == x);
}

/// Extending a sum scan by one element keeps the relation.
proof fn lemma_sum_scan_step<T, FAcc>(accum: FAcc, vals: Seq<T>, seed: T, prev: T, x: T, total: T) where
    FAcc: Fn(T, T) -> T,
    requires
        sum_scan(accum, vals, seed, prev),
        call_ensures(accum, (prev, x), total),
    ensures
        sum_scan(accum, vals.push(x), seed, total),
{
    assert(vals.push(x).drop_last() =~= vals);
    assert(vals.push(x).last() == x);
}

/// One row of softmax, written into a fresh buffer of the same length.
///
/// The three passes are strictly sequential: the shift depends on the max
/// scan, and the rescaling depends on the accumulated denominator. The
/// reciprocal is computed once; each element is then rescaled by it.
pub fn softmax_row<T, FLt, FEs, FAcc, FRcp, FScl>(
    row: &[T],
    lowest: T,
    zero: T,
    lt: FLt,
    exp_shift: FEs,
    accum: FAcc,
    recip: FRcp,
    rescale: FScl,
) -> (out: Vec<T>) where
    T: Copy,
    FLt: Fn(T, T) -> bool + Copy,
    FEs: Fn(T, T) -> T + Copy,
    FAcc: Fn(T, T) -> T + Copy,
    FRcp: Fn(T) -> T + Copy,
    FScl: Fn(T, T) -> T + Copy,
    requires
        ops_total(lt, exp_shift, accum, recip, rescale),
    ensures
        out@.len() == row@.len(),
        softmax_row_rel(lt, exp_shift, accum, recip, rescale, lowest, zero, row@, out@),
{
    let ghost r = row@;
    let n = row.len();

    let mut m = lowest;
    let mut k: usize = 0;
    while k < n
        invariant
            ops_total(lt, exp_shift, accum, recip, rescale),
            n == r.len(),
            r == row@,
            0 <= k <= n,
            max_scan(lt, r.take(k as int), lowest, m),
        decreases n - k,
    {
        let x = row[k];
        let took = lt(m, x);
        proof {
            lemma_max_scan_step(lt, r.take(k as int), lowest, m, r[k as int], took);
            assert(r.take(k as int).push(r[k as int]) =~= r.take(k as int + 1));
        }
        if took {
            m = x;
        }
        k = k + 1;
    }
    proof {
        assert(r.take(n as int) =~= r);
    }

    let mut shifted: Vec<T> = Vec::new();
    let mut denom = zero;
    k = 0;
    while k < n
        invariant
            ops_total(lt, exp_shift, accum, recip, rescale),
            n == r.len(),
            r == row@,
            0 <= k <= n,
            shifted@.len() == k,
            forall|i: int|
                0 <= i < k ==> call_ensures(exp_shift, (r[i], m), #[trigger] shifted@[i]),
            sum_scan(accum, shifted@, zero, denom),
        decreases n - k,
    {
        let x = row[k];
        let e = exp_shift(x, m);
        let d = accum(denom, e);
        proof {
            lemma_sum_scan_step(accum, shifted@, zero, denom, e, d);
        }
        shifted.push(e);
        denom = d;
        k = k + 1;
    }

    let inv = recip(denom);

    let mut out: Vec<T> = Vec::new();
    k = 0;
    while k < n
        invariant
            ops_total(lt, exp_shift, accum, recip, rescale),
            n == r.len(),
            n == shifted@.len(),
            0 <= k <= n,
            out@.len() == k,
            forall|i: int|
                0 <= i < k ==> call_ensures(rescale, (shifted@[i], inv), #[trigger] out@[i]),
        decreases n - k,
    {
        let y = rescale(shifted[k], inv);
        out.push(y);
        k = k + 1;
    }

    proof {
        assert(max_scan(lt, r, lowest, m));
        assert(exp_row_rel(exp_shift, r, m, shifted@));
        assert(sum_scan(accum, shifted@, zero, denom));
        assert(scaled_rel(rescale, shifted@, inv, out@));
    }
    out
}

/// The batch contract: `out` tiles into `batch.len() / width` rows of
/// `width` elements, and each output row stands in the softmax row
/// relation to the input row at the same position — no output row depends
/// on any other input row, the invariant that licenses data-parallel
/// execution.
pub open spec fn softmax_batch_rel<T, FLt, FEs, FAcc, FRcp, FScl>(
    lt: FLt,
    exp_shift: FEs,
    accum: FAcc,
    recip: FRcp,
    rescale: FScl,
    lowest: T,
    zero: T,
    width: int,
    batch: Seq<T>,
    out: Seq<T>,
) -> bool where
    FLt: Fn(T, T) -> bool,
    FEs: Fn(T, T) -> T,
    FAcc: Fn(T, T) -> T,
    FRcp: Fn(T) -> T,
    FScl: Fn(T, T) -> T,
{
    &&& out.len() == batch.len()
    &&& forall|rix: int|
        0 <= rix < batch.len() as int / width ==> softmax_row_rel(
            lt,
            exp_shift,
            accum,
            recip,
            rescale,
            lowest,
            zero,
            batch.subrange(rix * width, (rix + 1) * width),
            #[trigger] out.subrange(rix * width, (rix + 1) * width),
        )
}

/// The serial batch driver: partitions the flat `batch` into disjoint
/// `width`-sized rows and runs the row kernel on each, in row order.
///
/// Fails with `InvalidShape` exactly when the width is zero or the buffer
/// is not an exact multiple of the width.
pub fn softmax_batch_serial<T, FLt, FEs, FAcc, FRcp, FScl>(
    batch: &[T],
    width: usize,
    lowest: T,
    zero: T,
    lt: FLt,
    exp_shift: FEs,
    accum: FAcc,
    recip: FRcp,
    rescale: FScl,
) -> (result: Result<Vec<T>, SoftmaxError>) where
    T: Copy,
    FLt: Fn(T, T) -> bool + Copy,
    FEs: Fn(T, T) -> T + Copy,
    FAcc: Fn(T, T) -> T + Copy,
    FRcp: Fn(T) -> T + Copy,
    FScl: Fn(T, T) -> T + Copy,
    requires
        ops_total(lt, exp_shift, accum, recip, rescale),
    ensures
        match result {
            Ok(out) => width > 0 && batch@.len() as int % (width as int) == 0 && softmax_batch_rel(
                lt,
                exp_shift,
                accum,
                recip,
                rescale,
                lowest,
                zero,
                width as int,
                batch@,
                out@,
            ),
            Err(e) => e == SoftmaxError::InvalidShape && (width == 0 || batch@.len() as int % (
            width as int) != 0),
        },
{
    if width == 0 || batch.len() % width != 0 {
        return Err(SoftmaxError::InvalidShape);
    }
    let ghost b = batch@;
    let ghost w = width as int;
    let n = batch.len();
    let rows = n / width;
    proof {
        vstd::arithmetic::div_mod::lemma_fundamental_div_mod(n as int, w);
    }

    let mut out: Vec<T> = Vec::new();
    let mut r: usize = 0;
    while r < rows
        invariant
            ops_total(lt, exp_shift, accum, recip, rescale),
            b == batch@,
            width > 0,
            n == b.len(),
            w == width as int,
            rows == n as int / w,
            n as int == w * rows,
            0 <= r <= rows,
            out@.len() == r * w,
            forall|rix: int|
                0 <= rix < r ==> softmax_row_rel(
                    lt,
                    exp_shift,
                    accum,
                    recip,
                    rescale,
                    lowest,
                    zero,
                    b.subrange(rix * w, (rix + 1) * w),
                    #[trigger] out@.subrange(rix * w, (rix + 1) * w),
                ),
        decreases rows - r,
    {
        proof {
            vstd::arithmetic::mul::lemma_mul_inequality(r as int + 1, rows as int, w);
            vstd::arithmetic::mul::lemma_mul_is_commutative(rows as int, w);
            assert((r as int + 1) * w == r as int * w + w) by (nonlinear_arith);
        }
        let start = r * width;
        let chunk = vstd::slice::slice_subrange(batch, start, start + width);
        let mut row_out = softmax_row(chunk, lowest, zero, lt, exp_shift, accum, recip, rescale);
        let ghost prev = out@;
        let ghost row_seq = row_out@;
        out.append(&mut row_out);
        r = r + 1;
        proof {
            assert forall|rix: int| 0 <= rix < r implies softmax_row_rel(
                lt,
                exp_shift,
                accum,
                recip,
                rescale,
                lowest,
                zero,
                b.subrange(rix * w, (rix + 1) * w),
                #[trigger] out@.subrange(rix * w, (rix + 1) * w),
            ) by {
                vstd::arithmetic::mul::lemma_mul_basics(w);
                vstd::arithmetic::mul::lemma_mul_inequality(0, rix, w);
                if rix < r - 1 {
                    vstd::arithmetic::mul::lemma_mul_inequality(rix + 1, r - 1, w);
                    vstd::arithmetic::mul::lemma_mul_inequality(rix, rix + 1, w);
                    assert(out@.subrange(rix * w, (rix + 1) * w) =~= prev.subrange(
                        rix * w,
                        (rix + 1) * w,
                    ));
                } else {
                    assert(out@.subrange(rix * w, (rix + 1) * w) =~= row_seq);
                }
            }
        }
    }
    proof {
        assert(out@.len() == b.len()) by {
            vstd::arithmetic::mul::lemma_mul_is_commutative(rows as int, w);
        }
    }
    Ok(out)
}

/// Relies on rayon's `par_chunks_exact_mut`, `par_chunks_exact`, `zip` and
/// `for_each`: the two iterators yield the non-overlapping `width`-sized
/// chunks of the output and input buffers, `zip` pairs the chunks at equal
/// positions, and `for_each` runs the given closure — which only calls the
/// verified row kernel and copies its result — once on every pair. Each
/// output row therefore satisfies the verified row contract against the
/// input row at the same position.
#[verifier::external_body]
fn par_rows<T, FLt, FEs, FAcc, FRcp, FScl>(
    batch: &[T],
    width: usize,
    lowest: T,
    zero: T,
    lt: FLt,
    exp_shift: FEs,
    accum: FAcc,
    recip: FRcp,
    rescale: FScl,
) -> (out: Vec<T>) where
    T: Copy + Send + Sync,
    FLt: Fn(T, T) -> bool + Copy + Send + Sync,
    FEs: Fn(T, T) -> T + Copy + Send + Sync,
    FAcc: Fn(T, T) -> T + Copy + Send + Sync,
    FRcp: Fn(T) -> T + Copy + Send + Sync,
    FScl: Fn(T, T) -> T + Copy + Send + Sync,
    requires
        width > 0,
        batch@.len() as int % (width as int) == 0,
        ops_total(lt, exp_shift, accum, recip, rescale),
    ensures
        softmax_batch_rel(
            lt,
            exp_shift,
            accum,
            recip,
            rescale,
            lowest,
            zero,
            width as int,
            batch@,
            out@,
        ),
{
    let mut out = batch.to_vec();
    out.par_chunks_exact_mut(width).zip(batch.par_chunks_exact(width)).for_each(
        |(into, row): (&mut [T], &[T])| {
            let fresh = softmax_row(row, lowest, zero, lt, exp_shift, accum, recip, rescale);
            into.copy_from_slice(&fresh);
        },
    );
    out
}

/// The parallel batch driver: the same contract as the serial driver, with
/// the independent rows distributed over rayon's worker pool. Within one
/// row the three passes stay sequential on one worker, so the parallel
/// split never reassociates a row's arithmetic.
pub fn softmax_batch_parallel<T, FLt, FEs, FAcc, FRcp, FScl>(
    batch: &[T],
    width: usize,
    lowest: T,
    zero: T,
    lt: FLt,
    exp_shift: FEs,
    accum: FAcc,
    recip: FRcp,
    rescale: FScl,
) -> (result: Result<Vec<T>, SoftmaxError>) where
    T: Copy + Send + Sync,
    FLt: Fn(T, T) -> bool + Copy + Send + Sync,
    FEs: Fn(T, T) -> T + Copy + Send + Sync,
    FAcc: Fn(T, T) -> T + Copy + Send + Sync,
    FRcp: Fn(T) -> T + Copy + Send + Sync,
    FScl: Fn(T, T) -> T + Copy + Send + Sync,
    requires
        ops_total(lt, exp_shift, accum, recip, rescale),
    ensures
        match result {
            Ok(out) => width > 0 && batch@.len() as int % (width as int) == 0
                && softmax_batch_rel(
                lt,
                exp_shift,
                accum,
                recip,
                rescale,
                lowest,
                zero,
                width as int,
                batch@,
                out@,
            ),
            Err(e) => e == SoftmaxError::InvalidShape && (width == 0 || batch@.len() as int % (
            width as int) != 0),
        },
{
    if width == 0 || batch.len() % width != 0 {
        return Err(SoftmaxError::InvalidShape);
    }
    Ok(par_rows(batch, width, lowest, zero, lt, exp_shift, accum, recip, rescale))
}

/// A max scan carries over to a pointwise-shifted row: when the shift
/// respects the order test, the shifted row admits the shifted result from
/// the shifted seed.
proof fn lemma_max_scan_shift<T, FLt>(lt: FLt, row: Seq<T>, seed: T, m: T, sh: spec_fn(T) -> T) where
    FLt: Fn(T, T) -> bool,
    requires
        forall|a: T, b: T, r: bool| #[trigger] call_ensures(lt, (a, b), r) <==> call_ensures(
            lt,
            (sh(a), sh(b)),
            r,
        ),
        max_scan(lt, row, seed, m),
    ensures
        max_scan(lt, row.map_values(sh), sh(seed), sh(m)),
    decreases row.len(),
{
    let mapped = row.map_values(sh);
    if row.len() == 0 {
        assert(mapped.len() == 0);
    } else {
        let (prev, took) = choose|prev: T, took: bool|
            #[trigger] call_ensures(lt, (prev, row.last()), took)
                && max_scan(lt, row.drop_last(), seed, prev)
                && m == (if took { row.last() } else { prev });
        lemma_max_scan_shift(lt, row.drop_last(), seed, prev, sh);
        assert(mapped.drop_last() =~= row.drop_last().map_values(sh));
        assert(mapped.last() == sh(row.last()));
        assert(call_ensures(lt, (sh(prev), sh(row.last())), took));
        assert(sh(m) == (if took { mapped.last() } else { sh(prev) }));
    }
}

/// Shift invariance: for a scalar shift that fixes the max-scan seed,
/// respects the order test and cancels in the shifted exponential, the
/// pointwise-shifted row admits every output the original row admits —
/// subtracting the row maximum removes the shift before it can reach the
/// exponentials, the denominator or the rescaling.
pub proof fn lemma_row_rel_shift_invariant<T, FLt, FEs, FAcc, FRcp, FScl>(
    lt: FLt,
    exp_shift: FEs,
    accum: FAcc,
    recip: FRcp,
    rescale: FScl,
    lowest: T,
    zero: T,
    sh: spec_fn(T) -> T,
    row: Seq<T>,
    out: Seq<T>,
) where
    FLt: Fn(T, T) -> bool,
    FEs: Fn(T, T) -> T,
    FAcc: Fn(T, T) -> T,
    FRcp: Fn(T) -> T,
    FScl: Fn(T, T) -> T,
    requires
        sh(lowest) == lowest,
        forall|a: T, b: T, r: bool| #[trigger] call_ensures(lt, (a, b), r) <==> call_ensures(
            lt,
            (sh(a), sh(b)),
            r,
        ),
        forall|x: T, m: T, e: T| #[trigger] call_ensures(exp_shift, (x, m), e) <==> call_ensures(
            exp_shift,
            (sh(x), sh(m)),
            e,
        ),
        softmax_row_rel(lt, exp_shift, accum, recip, rescale, lowest, zero, row, out),
    ensures
        softmax_row_rel(
            lt,
            exp_shift,
            accum,
            recip,
            rescale,
            lowest,
            zero,
            row.map_values(sh),
            out,
        ),
{
    let mapped = row.map_values(sh);
    let (m, e, denom, inv) = choose|m: T, e: Seq<T>, denom: T, inv: T|
        #![trigger max_scan(lt, row, lowest, m), sum_scan(accum, e, zero, denom), call_ensures(recip, (denom,), inv)]
        max_scan(lt, row, lowest, m)
            && exp_row_rel(exp_shift, row, m, e)
            && sum_scan(accum, e, zero, denom)
            && call_ensures(recip, (denom,), inv)
            && scaled_rel(rescale, e, inv, out);
    lemma_max_scan_shift(lt, row, lowest, m, sh);
    assert(max_scan(lt, mapped, lowest, sh(m)));
    assert forall|i: int| 0 <= i < mapped.len() implies call_ensures(
        exp_shift,
        (mapped[i], sh(m)),
        #[trigger] e[i],
    ) by {
        assert(call_ensures(exp_shift, (row[i], m), e[i]));
        assert(mapped[i] == sh(row[i]));
    }
    assert(exp_row_rel(exp_shift, mapped, sh(m), e));
    assert(sum_scan(accum, e, zero, denom));
    assert(call_ensures(recip, (denom,), inv));
    assert(scaled_rel(rescale, e, inv, out));
}

/// The two-operand operation `f` is a function of its operands: its
/// contract admits at most one result for given operands.
pub open spec fn fn2_deterministic<A, B, R, F>(f: F) -> bool where F: Fn(A, B) -> R {
    forall|a: A, b: B, r1: R, r2: R|
        #[trigger] call_ensures(f, (a, b), r1) && #[trigger] call_ensures(f, (a, b), r2) ==> r1
            == r2
}

/// The one-operand operation `f` is a function of its operand.
pub open spec fn fn1_deterministic<A, R, F>(f: F) -> bool where F: Fn(A) -> R {
    forall|a: A, r1: R, r2: R|
        #[trigger] call_ensures(f, (a,), r1) && #[trigger] call_ensures(f, (a,), r2) ==> r1 == r2
}

/// Every scalar operation of the kernel is a function of its operands.
pub open spec fn ops_deterministic<T, FLt, FEs, FAcc, FRcp, FScl>(
    lt: FLt,
    exp_shift: FEs,
    accum: FAcc,
    recip: FRcp,
    rescale: FScl,
) -> bool where
    FLt: Fn(T, T) -> bool,
    FEs: Fn(T, T) -> T,
    FAcc: Fn(T, T) -> T,
    FRcp: Fn(T) -> T,
    FScl: Fn(T, T) -> T,
{
    &&& fn2_deterministic(lt)
    &&& fn2_deterministic(exp_shift)
    &&& fn2_deterministic(accum)
    &&& fn1_deterministic(recip)
    &&& fn2_deterministic(rescale)
}

/// A max scan with a deterministic order test has one result.
proof fn lemma_max_scan_unique<T, FLt>(lt: FLt, row: Seq<T>, seed: T, m1: T, m2: T) where
    FLt: Fn(T, T) -> bool,
    requires
        fn2_deterministic(lt),
        max_scan(lt, row, seed, m1),
        max_scan(lt, row, seed, m2),
    ensures
        m1 == m2,
    decreases row.len(),
{
    if row.len() > 0 {
        let (prev1, took1) = choose|prev: T, took: bool|
            #[trigger] call_ensures(lt, (prev, row.last()), took)
                && max_scan(lt, row.drop_last(), seed, prev)
                && m1 == (if took { row.last() } else { prev });
        let (prev2, took2) = choose|prev: T, took: bool|
            #[trigger] call_ensures(lt, (prev, row.last()), took)
                && max_scan(lt, row.drop_last(), seed, prev)
                && m2 == (if took { row.last() } else { prev });
        lemma_max_scan_unique(lt, row.drop_last(), seed, prev1, prev2);
    }
}

/// A sum scan with a deterministic accumulator has one result.
proof fn lemma_sum_scan_unique<T, FAcc>(accum: FAcc, vals: Seq<T>, seed: T, t1: T, t2: T) where
    FAcc: Fn(T, T) -> T,
    requires
        fn2_deterministic(accum),
        sum_scan(accum, vals, seed, t1),
        sum_scan(accum, vals, seed, t2),
    ensures
        t1 == t2,
    decreases vals.len(),
{
    if vals.len() > 0 {
        let prev1 = choose|prev: T|
            #[trigger] call_ensures(accum, (prev, vals.last()), t1)
                && sum_scan(accum, vals.drop_last(), seed, prev);
        let prev2 = choose|prev: T|
            #[trigger] call_ensures(accum, (prev, vals.last()), t2)
                && sum_scan(accum, vals.drop_last(), seed, prev);
        lemma_sum_scan_unique(accum, vals.drop_last(), seed, prev1, prev2);
    }
}

/// Determinism of the row: when every scalar operation is a function of
/// its operands, the softmax row relation admits at most one output for a
/// given row. Repeated calls on the same input therefore produce identical
/// output, wherever each call ran.
pub proof fn lemma_row_rel_deterministic<T, FLt, FEs, FAcc, FRcp, FScl>(
    lt: FLt,
    exp_shift: FEs,
    accum: FAcc,
    recip: FRcp,
    rescale: FScl,
    lowest: T,
    zero: T,
    row: Seq<T>,
    out1: Seq<T>,
    out2: Seq<T>,
) where
    FLt: Fn(T, T) -> bool,
    FEs: Fn(T, T) -> T,
    FAcc: Fn(T, T) -> T,
    FRcp: Fn(T) -> T,
    FScl: Fn(T, T) -> T,
    requires
        ops_deterministic(lt, exp_shift, accum, recip, rescale),
        softmax_row_rel(lt, exp_shift, accum, recip, rescale, lowest, zero, row, out1),
        softmax_row_rel(lt, exp_shift, accum, recip, rescale, lowest, zero, row, out2),
    ensures
        out1 == out2,
{
    let (m1, e1, denom1, inv1) = choose|m: T, e: Seq<T>, denom: T, inv: T|
        #![trigger max_scan(lt, row, lowest, m), sum_scan(accum, e, zero, denom), call_ensures(recip, (denom,), inv)]
        max_scan(lt, row, lowest, m)
            && exp_row_rel(exp_shift, row, m, e)
            && sum_scan(accum, e, zero, denom)
            && call_ensures(recip, (denom,), inv)
            && scaled_rel(rescale, e, inv, out1);
    let (m2, e2, denom2, inv2) = choose|m: T, e: Seq<T>, denom: T, inv: T|
        #![trigger max_scan(lt, row, lowest, m), sum_scan(accum, e, zero, denom), call_ensures(recip, (denom,), inv)]
        max_scan(lt, row, lowest, m)
            && exp_row_rel(exp_shift, row, m, e)
            && sum_scan(accum, e, zero, denom)
            && call_ensures(recip, (denom,), inv)
            && scaled_rel(rescale, e, inv, out2);
    lemma_max_scan_unique(lt, row, lowest, m1, m2);
    assert forall|i: int| 0 <= i < row.len() implies e1[i] == e2[i] by {
        assert(call_ensures(exp_shift, (row[i], m1), e1[i]));
        assert(call_ensures(exp_shift, (row[i], m2), e2[i]));
    }
    assert(e1 =~= e2);
    lemma_sum_scan_unique(accum, e1, zero, denom1, denom2);
    assert forall|i: int| 0 <= i < row.len() implies out1[i] == out2[i] by {
        assert(call_ensures(rescale, (e1[i], inv1), out1[i]));
        assert(call_ensures(rescale, (e2[i], inv2), out2[i]));
    }
    assert(out1 =~= out2);
}

/// Determinism of the batch, and with it the equivalence of any two
/// schedules: when every scalar operation is a function of its operands,
/// the batch relation admits at most one output buffer for a given batch.
/// The serial and the parallel driver both ensure the relation, so their
/// results are identical whatever partition of the row space either used.
pub proof fn lemma_batch_rel_deterministic<T, FLt, FEs, FAcc, FRcp, FScl>(
    lt: FLt,
    exp_shift: FEs,
    accum: FAcc,
    recip: FRcp,
    rescale: FScl,
    lowest: T,
    zero: T,
    width: int,
    batch: Seq<T>,
    out1: Seq<T>,
    out2: Seq<T>,
) where
    FLt: Fn(T, T) -> bool,
    FEs: Fn(T, T) -> T,
    FAcc: Fn(T, T) -> T,
    FRcp: Fn(T) -> T,
    FScl: Fn(T, T) -> T,
    requires
        width > 0,
        batch.len() as int % width == 0,
        ops_deterministic(lt, exp_shift, accum, recip, rescale),
        softmax_batch_rel(lt, exp_shift, accum, recip, rescale, lowest, zero, width, batch, out1),
        softmax_batch_rel(lt, exp_shift, accum, recip, rescale, lowest, zero, width, batch, out2),
    ensures
        out1 == out2,
{
    let rows = batch.len() as int / width;
    vstd::arithmetic::div_mod::lemma_fundamental_div_mod(batch.len() as int, width);
    assert forall|j: int| 0 <= j < batch.len() implies out1[j] == out2[j] by {
        let rix = j / width;
        vstd::arithmetic::div_mod::lemma_fundamental_div_mod(j, width);
        vstd::arithmetic::div_mod::lemma_mod_bound(j, width);
        assert(rix * width <= j < rix * width + width) by {
            vstd::arithmetic::mul::lemma_mul_is_commutative(rix, width);
        }
        assert(0 <= rix < rows) by {
            if rix >= rows {
                vstd::arithmetic::mul::lemma_mul_inequality(rows, rix, width);
                vstd::arithmetic::mul::lemma_mul_is_commutative(rix, width);
                vstd::arithmetic::mul::lemma_mul_is_commutative(rows, width);
            }
            if rix < 0 {
                vstd::arithmetic::mul::lemma_mul_inequality(rix, -1, width);
            }
        }
        assert((rix + 1) * width <= batch.len()) by {
            vstd::arithmetic::mul::lemma_mul_inequality(rix + 1, rows, width);
            vstd::arithmetic::mul::lemma_mul_is_commutative(rows, width);
        }
        assert(0 <= rix * width) by {
            vstd::arithmetic::mul::lemma_mul_basics(width);
            vstd::arithmetic::mul::lemma_mul_inequality(0, rix, width);
            vstd::arithmetic::mul::lemma_mul_is_commutative(rix, width);
        }
        assert((rix + 1) * width == rix * width + width) by (nonlinear_arith);
        lemma_row_rel_deterministic(
            lt,
            exp_shift,
            accum,
            recip,
            rescale,
            lowest,
            zero,
            batch.subrange(rix * width, (rix + 1) * width),
            out1.subrange(rix * width, (rix + 1) * width),
            out2.subrange(rix * width, (rix + 1) * width),
        );
        assert(out1[j] == out1.subrange(rix * width, (rix + 1) * width)[j - rix * width]);
        assert(out2[j] == out2.subrange(rix * width, (rix + 1) * width)[j - rix * width]);
    }
    assert(out1 =~= out2);
}

} // verus!
