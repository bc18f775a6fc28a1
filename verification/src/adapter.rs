//! The engine boundary: validation of a host tensor's shape, axis selector
//! and memory layout, and the plan that turns a valid request into a flat
//! batch of fixed-width rows.
//!
//! The host engine's tensor is modelled by the plain values the kernel
//! reads from it: the shape, the element offset where the addressed region
//! starts, whether that region is one contiguous run, and the element
//! kind. The caller at the boundary fills a [`TensorMeta`] from the host's
//! layout and hands the storage over as one flat slice.

use vstd::prelude::*;

use crate::error::SoftmaxError;

verus! {

/// The element kind of a host tensor's storage. Only [`ElemKind::Single`]
/// — 32-bit IEEE-754 floating point — is supported by the kernel.
#[derive(Clone, Copy, Debug, PartialEq, Eq, Structural)]
pub enum ElemKind {
    /// An unsigned 8-bit integer.
    UnsignedByte,
    /// An unsigned 32-bit integer.
    UnsignedInt,
    /// A signed 64-bit integer.
    SignedLong,
    /// A 16-bit brain floating-point number.
    BrainHalf,
    /// A 16-bit floating-point number.
    Half,
    /// A 32-bit floating-point number: the supported kind.
    Single,
    /// A 64-bit floating-point number.
    Double,
}

/// An axis selector, resolved against the tensor's rank.
#[derive(Clone, Copy, Debug, PartialEq, Eq, Structural)]
pub enum AxisSpec {
    /// The trailing axis, whatever the rank: the only supported reduction.
    Last,
    /// The axis before the trailing one.
    NextToLast,
    /// The axis `k` positions before the end: `FromEnd(1)` is the trailing
    /// axis.
    FromEnd(usize),
    /// An axis given by its position, outermost first.
    Index(usize),
}

impl AxisSpec {
    /// Whether the selector resolves, for rank `rank`, to the trailing
    /// axis. `NextToLast` never does; an out-of-range index resolves to
    /// nothing at all and in particular not to the trailing axis.
    pub open spec fn resolves_to_last(self, rank: int) -> bool {
        match self {
            AxisSpec::Last => rank >= 1,
            AxisSpec::NextToLast => false,
            AxisSpec::FromEnd(k) => k == 1 && rank >= 1,
            AxisSpec::Index(i) => i + 1 == rank,
        }
    }
}

/// The product of a shape's dimension sizes: how many elements a tensor of
/// that shape holds.
pub open spec fn dims_product(dims: Seq<usize>) -> int
    decreases dims.len(),
{
    if dims.len() == 0 {
        1
    } else {
        dims_product(dims.drop_last()) * dims.last()
    }
}

/// What the kernel reads of a host tensor: its shape, where the addressed
/// region starts in storage, whether that region is contiguous, and the
/// element kind.
pub struct TensorMeta {
    /// The shape: one size per axis, outermost first.
    pub dims: Vec<usize>,
    /// The element offset of the addressed region within the storage.
    pub start: usize,
    /// Whether the addressed region is one contiguous run, in logical
    /// order with no gaps.
    pub contiguous: bool,
    /// The element kind of the storage.
    pub kind: ElemKind,
}

impl TensorMeta {
    /// The number of axes.
    pub open spec fn rank(self) -> int {
        self.dims@.len() as int
    }

    /// The width of one row: the size of the trailing axis.
    pub open spec fn width(self) -> int {
        self.dims@.last() as int
    }

    /// The number of rows: the sizes of all leading axes, collapsed into
    /// one batch dimension.
    pub open spec fn rows(self) -> int {
        dims_product(self.dims@.drop_last())
    }

    /// The trailing axis carries at least one element per row.
    pub open spec fn shape_ok(self) -> bool {
        self.rank() >= 1 && self.width() > 0
    }

    /// The addressed region lies within a storage of `storage_len`
    /// elements.
    pub open spec fn region_fits(self, storage_len: int) -> bool {
        self.start + dims_product(self.dims@) <= storage_len
    }

    /// A request this adapter accepts: the axis resolves to the trailing
    /// one, the region is contiguous, the elements are 32-bit floats, each
    /// row is non-empty and the region fits the storage.
    pub open spec fn accepts(self, axis: AxisSpec, storage_len: int) -> bool {
        &&& axis.resolves_to_last(self.rank())
        &&& self.contiguous
        &&& self.kind == ElemKind::Single
        &&& self.shape_ok()
        &&& self.region_fits(storage_len)
    }

    /// The error owed to a rejected request, in validation order: the axis
    /// first, then the layout, then the element kind, then the shape.
    pub open spec fn refusal(self, axis: AxisSpec, storage_len: int) -> SoftmaxError {
        if !axis.resolves_to_last(self.rank()) {
            SoftmaxError::UnsupportedAxis
        } else if !self.contiguous {
            SoftmaxError::NonContiguous
        } else if self.kind != ElemKind::Single {
            SoftmaxError::UnsupportedDType
        } else {
            SoftmaxError::InvalidShape
        }
    }
}

/// A validated request: `rows` disjoint rows of `width` elements each,
/// lying at `start..end` in the storage.
pub struct BatchPlan {
    /// The number of rows, all leading axes collapsed.
    pub rows: usize,
    /// The number of elements in each row: the size of the trailing axis.
    pub width: usize,
    /// The element offset of the first row in the storage.
    pub start: usize,
    /// The element offset just past the last row.
    pub end: usize,
}

/// A product over a shape is at least the product over a prefix, when the
/// remaining sizes are all at least one.
proof fn lemma_dims_product_prefix(dims: Seq<usize>, k: int)
    requires
        0 <= k <= dims.len(),
        forall|i: int| k <= i < dims.len() ==> dims[i] >= 1,
    ensures
        dims_product(dims) >= dims_product(dims.take(k)),
        dims_product(dims.take(k)) >= 0,
    decreases dims.len() - k,
{
    lemma_dims_product_nonneg(dims.take(k));
    if k < dims.len() {
        assert(dims.drop_last() =~= dims.take(dims.len() - 1));
        lemma_dims_product_prefix(dims.take(dims.len() - 1), k);
        assert(dims.take(dims.len() - 1).take(k) =~= dims.take(k));
        vstd::arithmetic::mul::lemma_mul_inequality(
            1,
            dims.last() as int,
            dims_product(dims.take(dims.len() - 1)),
        );
        vstd::arithmetic::mul::lemma_mul_is_commutative(
            dims_product(dims.take(dims.len() - 1)),
            dims.last() as int,
        );
        vstd::arithmetic::mul::lemma_mul_basics(dims_product(dims.take(dims.len() - 1)));
    } else {
        assert(dims.take(k) =~= dims);
    }
}

/// A product of dimension sizes is never negative.
proof fn lemma_dims_product_nonneg(dims: Seq<usize>)
    ensures
        dims_product(dims) >= 0,
    decreases dims.len(),
{
    if dims.len() > 0 {
        lemma_dims_product_nonneg(dims.drop_last());
        vstd::arithmetic::mul::lemma_mul_nonnegative(
            dims_product(dims.drop_last()),
            dims.last() as int,
        );
    }
}

/// Extending a prefix of a shape by one axis multiplies the product by
/// that axis's size.
proof fn lemma_dims_product_step(dims: Seq<usize>, k: int)
    requires
        0 <= k < dims.len(),
    ensures
        dims_product(dims.take(k + 1)) == dims_product(dims.take(k)) * dims[k],
{
    assert(dims.take(k + 1).drop_last() =~= dims.take(k));
    assert(dims.take(k + 1).last() == dims[k]);
}

/// Validates a request against a storage of `storage_len` elements and
/// returns the batch plan: the collapsed row count, the row width, and the
/// element range the rows occupy.
///
/// Succeeds exactly on the requests [`TensorMeta::accepts`] describes;
/// a rejected request yields [`TensorMeta::refusal`]'s error, so a
/// non-trailing axis, a non-contiguous region and an unsupported element
/// kind are each reported as such, in validation order.
pub fn plan_softmax(meta: &TensorMeta, axis: AxisSpec, storage_len: usize) -> (result: Result<
    BatchPlan,
    SoftmaxError,
>)
    ensures
        match result {
            Ok(plan) => {
                &&& meta.accepts(axis, storage_len as int)
                &&& plan.rows as int == meta.rows()
                &&& plan.width as int == meta.width()
                &&& plan.start == meta.start
                &&& plan.end as int == meta.start + meta.rows() * meta.width()
                &&& plan.end <= storage_len
            },
            Err(e) => !meta.accepts(axis, storage_len as int) && e == meta.refusal(
                axis,
                storage_len as int,
            ),
        },
{
    let rank = meta.dims.len();
    let trailing = match axis {
        AxisSpec::Last => rank >= 1,
        AxisSpec::NextToLast => false,
        AxisSpec::FromEnd(k) => k == 1 && rank >= 1,
        AxisSpec::Index(i) => rank >= 1 && i == rank - 1,
    };
    if !trailing {
        return Err(SoftmaxError::UnsupportedAxis);
    }
    if !meta.contiguous {
        return Err(SoftmaxError::NonContiguous);
    }
    if meta.kind != ElemKind::Single {
        return Err(SoftmaxError::UnsupportedDType);
    }

    let width = meta.dims[rank - 1];
    if width == 0 {
        proof {
            lemma_dims_product_zero_last(meta.dims@);
        }
        return Err(SoftmaxError::InvalidShape);
    }

    let ghost leading = meta.dims@.drop_last();
    let mut zero_seen = false;
    let mut k: usize = 0;
    while k < rank - 1
        invariant
            rank == meta.dims@.len(),
            rank >= 1,
            0 <= k <= rank - 1,
            leading == meta.dims@.drop_last(),
            zero_seen <==> exists|i: int| 0 <= i < k && leading[i] == 0,
        decreases rank - 1 - k,
    {
        proof {
            assert(leading[k as int] == meta.dims@[k as int]);
        }
        if meta.dims[k] == 0 {
            zero_seen = true;
        }
        k = k + 1;
    }

    let mut rows: usize = 0;
    if zero_seen {
        // Some leading axis is empty: the batch holds no rows at all.
        proof {
            let i = choose|i: int| 0 <= i < rank - 1 && leading[i] == 0;
            lemma_dims_product_zero(leading, i);
        }
    } else {
        rows = 1;
        k = 0;
        while k < rank - 1
            invariant
                rank == meta.dims@.len(),
                rank >= 1,
                0 <= k <= rank - 1,
                leading == meta.dims@.drop_last(),
                forall|i: int| 0 <= i < leading.len() ==> leading[i] >= 1,
                rows as int == dims_product(leading.take(k as int)),
                axis.resolves_to_last(meta.rank()),
                meta.contiguous,
                meta.kind == ElemKind::Single,
                width as int == meta.width(),
                width >= 1,
            decreases rank - 1 - k,
        {
            let d = meta.dims[k];
            proof {
                assert(leading[k as int] == meta.dims@[k as int]);
                lemma_dims_product_step(leading, k as int);
            }
            match rows.checked_mul(d) {
                Some(next) => {
                    rows = next;
                },
                None => {
                    // The leading product alone exceeds what any storage
                    // a machine can hold may count, and no later size is
                    // zero, so the region cannot fit the storage.
                    proof {
                        lemma_dims_product_prefix(leading, k as int + 1);
                        lemma_dims_product_nonneg(leading);
                        lemma_dims_product_last_factor(meta.dims@);
                        vstd::arithmetic::mul::lemma_mul_inequality(
                            1,
                            width as int,
                            dims_product(leading),
                        );
                        vstd::arithmetic::mul::lemma_mul_is_commutative(
                            dims_product(leading),
                            width as int,
                        );
                        vstd::arithmetic::mul::lemma_mul_basics(dims_product(leading));
                    }
                    return Err(SoftmaxError::InvalidShape);
                },
            }
            k = k + 1;
        }
        proof {
            assert(leading.take(rank - 1) =~= leading);
        }
    }
    proof {
        lemma_dims_product_last_factor(meta.dims@);
        vstd::arithmetic::mul::lemma_mul_basics(width as int);
    }

    let total = match rows.checked_mul(width) {
        Some(t) => t,
        None => {
            return Err(SoftmaxError::InvalidShape);
        },
    };
    let end = match meta.start.checked_add(total) {
        Some(e) => e,
        None => {
            return Err(SoftmaxError::InvalidShape);
        },
    };
    if end > storage_len {
        return Err(SoftmaxError::InvalidShape);
    }
    Ok(BatchPlan { rows, width, start: meta.start, end })
}

/// The full boundary computation: validates the request, extracts the
/// addressed region as a batch of `meta.rows()` rows of `meta.width()`
/// elements, and runs the parallel softmax driver over it. The caller
/// wraps the returned buffer, which has exactly the region's size, back
/// into a tensor of the original shape; the input storage is never
/// changed.
///
/// Succeeds exactly on the requests [`TensorMeta::accepts`] describes and
/// otherwise returns [`TensorMeta::refusal`]'s error.
pub fn softmax_tensor<T, FLt, FEs, FAcc, FRcp, FScl>(
    storage: &[T],
    meta: &TensorMeta,
    axis: AxisSpec,
    lowest: T,
    zero: T,
    lt: FLt,
    exp_shift: FEs,
    accum: FAcc,
    recip: FRcp,
    rescale: FScl,
) -> (result: Result<Vec<T>, SoftmaxError>) where
    T: Copy + Send + Sync,
    FLt: Fn(T, T) -> bool + Copy + Send + Sync,
    FEs: Fn(T, T) -> T + Copy + Send + Sync,
    FAcc: Fn(T, T) -> T + Copy + Send + Sync,
    FRcp: Fn(T) -> T + Copy + Send + Sync,
    FScl: Fn(T, T) -> T + Copy + Send + Sync,
    requires
        crate::kernel::ops_total(lt, exp_shift, accum, recip, rescale),
    ensures
        match result {
            Ok(out) => {
                &&& meta.accepts(axis, storage@.len() as int)
                &&& out@.len() == meta.rows() * meta.width()
                &&& crate::kernel::softmax_batch_rel(
                    lt,
                    exp_shift,
                    accum,
                    recip,
                    rescale,
                    lowest,
                    zero,
                    meta.width(),
                    storage@.subrange(
                        meta.start as int,
                        meta.start + meta.rows() * meta.width(),
                    ),
                    out@,
                )
            },
            Err(e) => !meta.accepts(axis, storage@.len() as int) && e == meta.refusal(
                axis,
                storage@.len() as int,
            ),
        },
{
    let plan = match plan_softmax(meta, axis, storage.len()) {
        Ok(p) => p,
        Err(e) => {
            return Err(e);
        },
    };
    proof {
        vstd::arithmetic::div_mod::lemma_mod_multiples_basic(plan.rows as int, plan.width as int);
    }
    let region = vstd::slice::slice_subrange(storage, plan.start, plan.end);
    match crate::kernel::softmax_batch_parallel(
        region,
        plan.width,
        lowest,
        zero,
        lt,
        exp_shift,
        accum,
        recip,
        rescale,
    ) {
        Ok(out) => Ok(out),
        Err(e) => Err(e),
    }
}

/// A shape whose trailing axis is zero holds no elements.
proof fn lemma_dims_product_zero_last(dims: Seq<usize>)
    requires
        dims.len() >= 1,
        dims.last() == 0,
    ensures
        dims_product(dims) == 0,
{
    vstd::arithmetic::mul::lemma_mul_basics(dims_product(dims.drop_last()));
}

/// A shape with a zero axis holds no elements.
proof fn lemma_dims_product_zero(dims: Seq<usize>, k: int)
    requires
        0 <= k < dims.len(),
        dims[k] == 0,
    ensures
        dims_product(dims) == 0,
    decreases dims.len(),
{
    if k == dims.len() - 1 {
        vstd::arithmetic::mul::lemma_mul_basics(dims_product(dims.drop_last()));
    } else {
        lemma_dims_product_zero(dims.drop_last(), k);
        vstd::arithmetic::mul::lemma_mul_basics(dims.last() as int);
    }
}

/// The element count of a shape is the leading product times the trailing
/// axis.
proof fn lemma_dims_product_last_factor(dims: Seq<usize>)
    requires
        dims.len() >= 1,
    ensures
        dims_product(dims) == dims_product(dims.drop_last()) * dims.last(),
{
}

} // verus!
