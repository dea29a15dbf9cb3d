use quant4::dropout::{backward, forward, DropoutOp};
use quant4::storage::QuantStorage;
use quant4::{Fx, OffsetQuant, ScaledQuant};

/// A fixed-point value from a float, rounded to the nearest representable.
fn fx(v: f64) -> Fx {
    Fx::from_raw((v * 65536.0).round() as i64)
}

/// The float a fixed-point value stands for.
fn to_f64(v: Fx) -> f64 {
    v.m as f64 / 65536.0
}

#[test]
fn zero_probability_returns_the_input_unchanged() {
    let values: Vec<Fx> = vec![fx(-4.0), fx(2.0), fx(7.0), fx(0.5), fx(-1.25), fx(3.0)];
    let st: QuantStorage<ScaledQuant> = QuantStorage::from_values(&values);
    let op = DropoutOp { prob: fx(0.0), seed: 11 };
    let out = forward(&op, &st);
    assert_eq!(out.element_count(), st.element_count());
    for i in 0..st.element_count() {
        assert_eq!(out.get(i).0, st.get(i).0);
        assert_eq!(out.get_value(i).m, st.get_value(i).m);
    }

    let ost: QuantStorage<OffsetQuant> = QuantStorage::from_values(&values);
    let oout = forward(&op, &ost);
    for i in 0..ost.element_count() {
        assert_eq!(oout.get(i).0, ost.get(i).0);
    }
}

#[test]
fn forward_and_backward_regenerate_the_same_mask() {
    let n = 100;
    let values: Vec<Fx> = (0..n).map(|_| fx(5.0)).collect();
    let inp: QuantStorage<ScaledQuant> = QuantStorage::from_values(&values);
    let op = DropoutOp { prob: fx(0.3), seed: 42 };

    let out = forward(&op, &inp);
    let zeroed_forward: Vec<usize> =
        (0..n).filter(|&i| out.get_value(i).m == 0).collect();

    let mut grad_inp: QuantStorage<ScaledQuant> = QuantStorage::from_values(&values);
    for i in 0..n {
        grad_inp.set_value(i, fx(0.0));
    }
    let grad_out: QuantStorage<ScaledQuant> = QuantStorage::from_values(&values);
    backward(&op, &inp, &mut grad_inp, &grad_out);
    let zero_grad: Vec<usize> =
        (0..n).filter(|&i| grad_inp.get_value(i).m == 0).collect();

    assert_eq!(zeroed_forward, zero_grad);
    assert!(!zeroed_forward.is_empty());
    assert!(zeroed_forward.len() < n);
}

#[test]
fn same_seed_reproduces_and_other_seeds_differ() {
    let values: Vec<Fx> = (0..64).map(|i| fx(1.0 + (i % 7) as f64)).collect();
    let inp: QuantStorage<ScaledQuant> = QuantStorage::from_values(&values);
    let op = DropoutOp { prob: fx(0.5), seed: 9 };
    let a = forward(&op, &inp);
    let b = forward(&op, &inp);
    let mut any_difference = false;
    for seed in 10..20u64 {
        let other = forward(&DropoutOp { prob: fx(0.5), seed }, &inp);
        for i in 0..inp.element_count() {
            assert_eq!(a.get(i).0, b.get(i).0);
            if other.get(i).0 != a.get(i).0 {
                any_difference = true;
            }
        }
    }
    assert!(any_difference);
}

#[test]
fn inverted_scaling_keeps_the_expected_value() {
    // Values chosen on the quantization grid: the fit gives a scale of one,
    // survivors rescale 3 -> 4 exactly, so the only variation is the mask.
    let n = 4000;
    let mut values: Vec<Fx> = (0..n).map(|_| fx(3.0)).collect();
    values[0] = fx(7.0);
    values[1] = fx(-7.0);
    let inp: QuantStorage<ScaledQuant> = QuantStorage::from_values(&values);
    let mut sum = 0.0f64;
    let mut count = 0usize;
    for seed in 0..40u64 {
        let out = forward(&DropoutOp { prob: fx(0.25), seed }, &inp);
        for i in 2..n {
            sum += to_f64(out.get_value(i));
            count += 1;
        }
    }
    let avg = sum / count as f64;
    assert!((avg - 3.0).abs() < 0.05);
}

#[test]
fn probability_one_zeroes_every_element() {
    let values: Vec<Fx> = vec![fx(-4.0), fx(2.0), fx(7.0), fx(1.0)];
    let inp: QuantStorage<ScaledQuant> = QuantStorage::from_values(&values);
    let out = forward(&DropoutOp { prob: fx(1.0), seed: 3 }, &inp);
    for i in 0..inp.element_count() {
        assert_eq!(out.get_value(i).m, 0);
    }
}

#[test]
fn backward_accumulates_into_existing_gradients() {
    let n = 8;
    // The value 7 sits exactly on the grid: the fitted scale is one.
    let values: Vec<Fx> = (0..n).map(|_| fx(7.0)).collect();
    let inp: QuantStorage<ScaledQuant> = QuantStorage::from_values(&values);
    let op = DropoutOp { prob: fx(0.0), seed: 1 };
    // With probability zero every contribution is the outgoing gradient value.
    let mut grad_inp: QuantStorage<ScaledQuant> = QuantStorage::from_values(&values);
    for i in 0..n {
        grad_inp.set_value(i, fx(0.0));
    }
    let grad_out: QuantStorage<ScaledQuant> = QuantStorage::from_values(&values);
    backward(&op, &inp, &mut grad_inp, &grad_out);
    for i in 0..n {
        assert_eq!(to_f64(grad_inp.get_value(i)), 7.0);
    }
    // A second accumulation lands beyond the coding range and clamps onto the
    // top code, which decodes back to the same value.
    backward(&op, &inp, &mut grad_inp, &grad_out);
    for i in 0..n {
        assert_eq!(to_f64(grad_inp.get_value(i)), 7.0);
    }
}
