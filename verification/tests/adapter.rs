//! Tests of the engine boundary: request validation, the batch plan, and
//! the full tensor-level computation.

use speedy_softmax::adapter::plan_softmax;
use speedy_softmax::adapter::softmax_tensor;
use speedy_softmax::adapter::AxisSpec;
use speedy_softmax::adapter::ElemKind;
use speedy_softmax::adapter::TensorMeta;
use speedy_softmax::SoftmaxError;

fn tensor_softmax(
    storage: &[f32],
    meta: &TensorMeta,
    axis: AxisSpec,
) -> Result<Vec<f32>, SoftmaxError> {
    softmax_tensor(
        storage,
        meta,
        axis,
        f32::NEG_INFINITY,
        0.0f32,
        |a: f32, b: f32| a < b,
        |x: f32, m: f32| (x - m).exp(),
        |acc: f32, e: f32| acc + e,
        |d: f32| 1.0f32 / d,
        |e: f32, inv: f32| e * inv,
    )
}

fn round4(x: f32) -> f32 {
    (x * 10000.0).round() / 10000.0
}

fn rank2_meta(rows: usize, width: usize) -> TensorMeta {
    TensorMeta { dims: vec![rows, width], start: 0, contiguous: true, kind: ElemKind::Single }
}

#[test]
fn plan_collapses_leading_axes() {
    let meta = TensorMeta {
        dims: vec![2, 3, 4],
        start: 0,
        contiguous: true,
        kind: ElemKind::Single,
    };
    let plan = plan_softmax(&meta, AxisSpec::Last, 24).unwrap();
    assert_eq!(plan.rows, 6);
    assert_eq!(plan.width, 4);
    assert_eq!(plan.start, 0);
    assert_eq!(plan.end, 24);
}

#[test]
fn plan_keeps_the_region_offset() {
    let meta = TensorMeta {
        dims: vec![2, 3],
        start: 5,
        contiguous: true,
        kind: ElemKind::Single,
    };
    let plan = plan_softmax(&meta, AxisSpec::Index(1), 11).unwrap();
    assert_eq!(plan.rows, 2);
    assert_eq!(plan.width, 3);
    assert_eq!(plan.start, 5);
    assert_eq!(plan.end, 11);
}

#[test]
fn non_trailing_axis_is_rejected() {
    let meta = rank2_meta(2, 4);
    assert!(matches!(
        plan_softmax(&meta, AxisSpec::Index(0), 8),
        Err(SoftmaxError::UnsupportedAxis)
    ));
    assert!(matches!(
        plan_softmax(&meta, AxisSpec::NextToLast, 8),
        Err(SoftmaxError::UnsupportedAxis)
    ));
    let storage = [0.0f32; 8];
    assert_eq!(
        tensor_softmax(&storage, &meta, AxisSpec::Index(0)),
        Err(SoftmaxError::UnsupportedAxis)
    );
}

#[test]
fn relative_axis_selectors_resolve_from_the_end() {
    let meta = rank2_meta(2, 4);
    let plan = plan_softmax(&meta, AxisSpec::FromEnd(1), 8).unwrap();
    assert_eq!((plan.rows, plan.width), (2, 4));
    assert!(matches!(
        plan_softmax(&meta, AxisSpec::FromEnd(2), 8),
        Err(SoftmaxError::UnsupportedAxis)
    ));
}

#[test]
fn rank_zero_has_no_trailing_axis() {
    let meta = TensorMeta { dims: vec![], start: 0, contiguous: true, kind: ElemKind::Single };
    assert!(matches!(
        plan_softmax(&meta, AxisSpec::Last, 4),
        Err(SoftmaxError::UnsupportedAxis)
    ));
}

#[test]
fn non_contiguous_region_is_rejected() {
    let meta = TensorMeta {
        dims: vec![2, 4],
        start: 0,
        contiguous: false,
        kind: ElemKind::Single,
    };
    assert!(matches!(
        plan_softmax(&meta, AxisSpec::Last, 8),
        Err(SoftmaxError::NonContiguous)
    ));
    let storage = [0.0f32; 8];
    assert_eq!(
        tensor_softmax(&storage, &meta, AxisSpec::Last),
        Err(SoftmaxError::NonContiguous)
    );
}

#[test]
fn unsupported_element_kind_is_rejected() {
    for kind in [
        ElemKind::UnsignedByte,
        ElemKind::UnsignedInt,
        ElemKind::SignedLong,
        ElemKind::BrainHalf,
        ElemKind::Half,
        ElemKind::Double,
    ] {
        let meta = TensorMeta { dims: vec![2, 4], start: 0, contiguous: true, kind };
        assert!(matches!(
            plan_softmax(&meta, AxisSpec::Last, 8),
            Err(SoftmaxError::UnsupportedDType)
        ));
    }
}

#[test]
fn zero_width_shape_is_rejected() {
    let meta = rank2_meta(2, 0);
    assert!(matches!(
        plan_softmax(&meta, AxisSpec::Last, 8),
        Err(SoftmaxError::InvalidShape)
    ));
}

#[test]
fn region_beyond_storage_is_rejected() {
    let meta = rank2_meta(2, 3);
    assert!(matches!(
        plan_softmax(&meta, AxisSpec::Last, 5),
        Err(SoftmaxError::InvalidShape)
    ));
    let storage = [0.0f32; 5];
    assert_eq!(
        tensor_softmax(&storage, &meta, AxisSpec::Last),
        Err(SoftmaxError::InvalidShape)
    );
}

#[test]
fn empty_leading_axis_yields_empty_output() {
    let meta = TensorMeta {
        dims: vec![0, 4],
        start: 0,
        contiguous: true,
        kind: ElemKind::Single,
    };
    let plan = plan_softmax(&meta, AxisSpec::Last, 0).unwrap();
    assert_eq!(plan.rows, 0);
    assert_eq!(plan.end, 0);
    let out = tensor_softmax(&[], &meta, AxisSpec::Last).unwrap();
    assert!(out.is_empty());
}

#[test]
fn tensor_batch_matches_reference_values() {
    let storage = [0.0f32, 1.0, 0.0, 1.0, -2.0, 2.0, 3.0, -3.0];
    let expected = [
        0.1345f32, 0.3655, 0.1345, 0.3655, 0.0049, 0.2671, 0.7262, 0.0018,
    ];
    let meta = rank2_meta(2, 4);
    let out = tensor_softmax(&storage, &meta, AxisSpec::Last).unwrap();
    assert_eq!(out.len(), expected.len());
    for (o, e) in out.iter().zip(expected.iter()) {
        assert_eq!(round4(*o), *e);
    }
}

#[test]
fn tensor_computation_skips_the_offset_prefix() {
    // Two padding elements precede the addressed region; they must not
    // take part in the computation, and the output holds rows only.
    let storage = [9.0f32, 9.0, 0.0, 1.0, 0.0, 1.0];
    let meta = TensorMeta {
        dims: vec![1, 4],
        start: 2,
        contiguous: true,
        kind: ElemKind::Single,
    };
    let out = tensor_softmax(&storage, &meta, AxisSpec::Last).unwrap();
    let expected = [0.1345f32, 0.3655, 0.1345, 0.3655];
    assert_eq!(out.len(), 4);
    for (o, e) in out.iter().zip(expected.iter()) {
        assert_eq!(round4(*o), *e);
    }
}

#[test]
fn error_messages_name_the_violation() {
    for e in [
        SoftmaxError::UnsupportedAxis,
        SoftmaxError::NonContiguous,
        SoftmaxError::UnsupportedDType,
        SoftmaxError::InvalidShape,
    ] {
        assert!(!e.message().is_empty());
    }
}
