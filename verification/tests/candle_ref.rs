//! The kernel held against the host engine's own softmax on a random
//! batch, through the real tensor types.
//!
//! The kernel multiplies by one reciprocal where the host divides each
//! element, so the two round differently in the last bits; the comparison
//! tolerates that difference, as absolute error well under the kernel's
//! stated 1e-4 bound.

use candle_core::{Device, Tensor};

use speedy_softmax::adapter::softmax_tensor;
use speedy_softmax::adapter::AxisSpec;
use speedy_softmax::adapter::ElemKind;
use speedy_softmax::adapter::TensorMeta;
use speedy_softmax::kernel::softmax_batch_parallel;

fn reference_rows(input: &Tensor) -> Vec<Vec<f32>> {
    candle_nn::ops::softmax(input, 1)
        .unwrap()
        .to_vec2::<f32>()
        .unwrap()
}

fn assert_rows_close(ours: &[f32], reference: &[Vec<f32>], width: usize) {
    assert_eq!(ours.len(), reference.len() * width);
    for (rix, ref_row) in reference.iter().enumerate() {
        for (cix, r) in ref_row.iter().enumerate() {
            let o = ours[rix * width + cix];
            assert!(
                (o - r).abs() < 1e-4,
                "row {rix}, column {cix}: kernel {o} vs host {r}"
            );
        }
    }
}

#[test]
fn fused_softmax_test_fused_softmax() {
    let input = Tensor::rand(-1.0f32, 1.0f32, &[6, 10], &Device::Cpu).unwrap();
    let reference = reference_rows(&input);

    let flat = input.flatten_all().unwrap().to_vec1::<f32>().unwrap();
    let ours = softmax_batch_parallel(
        &flat,
        10,
        f32::NEG_INFINITY,
        0.0f32,
        |a: f32, b: f32| a < b,
        |x: f32, m: f32| (x - m).exp(),
        |acc: f32, e: f32| acc + e,
        |d: f32| 1.0f32 / d,
        |e: f32, inv: f32| e * inv,
    )
    .unwrap();

    assert_rows_close(&ours, &reference, 10);
}

#[test]
fn candle_test_fused_softmax() {
    let input = Tensor::rand(-1.0f32, 1.0f32, &[6, 10], &Device::Cpu).unwrap();
    let reference = reference_rows(&input);

    let flat = input.flatten_all().unwrap().to_vec1::<f32>().unwrap();
    let meta = TensorMeta {
        dims: vec![6, 10],
        start: 0,
        contiguous: true,
        kind: ElemKind::Single,
    };
    let ours = softmax_tensor(
        &flat,
        &meta,
        AxisSpec::Last,
        f32::NEG_INFINITY,
        0.0f32,
        |a: f32, b: f32| a < b,
        |x: f32, m: f32| (x - m).exp(),
        |acc: f32, e: f32| acc + e,
        |d: f32| 1.0f32 / d,
        |e: f32, inv: f32| e * inv,
    )
    .unwrap();

    assert_rows_close(&ours, &reference, 10);
}
