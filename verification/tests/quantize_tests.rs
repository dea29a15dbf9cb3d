use quant4::storage::QuantStorage;
use quant4::{Fx, OffsetQuant, Quantize, ScaledQuant, u4};

use rand::SeedableRng;
use rand_distr::Distribution;

/// A fixed-point value from a float, rounded to the nearest representable.
fn fx(v: f64) -> Fx {
    Fx::from_raw((v * 65536.0).round() as i64)
}

/// The float a fixed-point value stands for.
fn to_f64(v: Fx) -> f64 {
    v.m as f64 / 65536.0
}

/// A normal sample transformed the same way on both sides of the round trip.
fn transformed_normal_sample(n: usize) -> Vec<f64> {
    let mut rng = rand::rngs::StdRng::seed_from_u64(7);
    let normal = rand_distr::Normal::new(0.0f64, 1.0f64).unwrap();
    let mut out = Vec::with_capacity(n);
    for _ in 0..n {
        let x: f64 = normal.sample(&mut rng);
        out.push(x.abs().powf(1.4).tanh() + 3.0);
    }
    out
}

#[test]
fn test_round_trip_offset() {
    let v = transformed_normal_sample(320 * 640);
    let fx_values: Vec<Fx> = v.iter().map(|x| fx(*x)).collect();
    let t: QuantStorage<OffsetQuant> = QuantStorage::from_values(&fx_values);
    let size_t = t.size_bytes();
    println!("Quantized bytes: {}", size_t);
    let size_v = std::mem::size_of::<Vec<f64>>() + v.capacity() * std::mem::size_of::<f64>();
    println!("Vec bytes: {}", size_v);
    let errs: Vec<f64> = (0..v.len())
        .map(|i| (v[i] - to_f64(t.get_value(i))).abs())
        .collect();
    let avg_err = errs.iter().sum::<f64>() / errs.len() as f64;
    let max_err = errs.iter().cloned().fold(0.0f64, f64::max);
    assert!(avg_err < 0.05);
    assert!(max_err < 0.1);
}

#[test]
fn test_round_trip_scaled() {
    let v = transformed_normal_sample(320 * 640);
    let fx_values: Vec<Fx> = v.iter().map(|x| fx(*x)).collect();
    let t: QuantStorage<ScaledQuant> = QuantStorage::from_values(&fx_values);
    let errs: Vec<f64> = (0..v.len())
        .map(|i| (v[i] - to_f64(t.get_value(i))).abs())
        .collect();
    let avg_err = errs.iter().sum::<f64>() / errs.len() as f64;
    let max_err = errs.iter().cloned().fold(0.0f64, f64::max);
    assert!(avg_err < 0.5);
    assert!(max_err < 1.0);
}

#[test]
fn half_byte_accepts_exactly_the_code_range() {
    for b in 0u8..=15 {
        let v = u4::from_byte(b).unwrap();
        assert_eq!(v.0, b);
    }
    assert!(u4::from_byte(16).is_err());
    assert!(u4::from_byte(255).is_err());
}

#[test]
fn scaled_fit_and_codes_scenario() {
    let values = vec![fx(-4.0), fx(2.0), fx(7.0)];
    let q = ScaledQuant::from_values(&values);
    assert_eq!(to_f64(q.scaling_factor), 1.0);
    assert_eq!(q.quantize(fx(7.0)).0, 15);
    assert_eq!(q.quantize(fx(-4.0)).0, 4);
    assert_eq!(to_f64(q.dequantize(u4(4))), -4.0);
}

#[test]
fn offset_fit_and_codes_scenario() {
    let values: Vec<Fx> = (0i64..16).map(Fx::from_int).collect();
    let q = OffsetQuant::from_values(&values);
    assert_eq!(to_f64(q.scaling_factor), 1.0);
    assert_eq!(to_f64(q.offset_factor), 0.0);
    assert_eq!(q.quantize(fx(7.0)).0, 7);
    assert_eq!(to_f64(q.dequantize(u4(7))), 7.0);
}

#[test]
fn quantize_clamps_out_of_range_values() {
    let q = ScaledQuant::from_values(&vec![fx(-1.0), fx(1.0)]);
    assert_eq!(q.quantize(fx(1000.0)).0, 15);
    assert_eq!(q.quantize(fx(-1000.0)).0, 0);
    let p = OffsetQuant::from_values(&vec![fx(0.0), fx(1.0)]);
    assert_eq!(p.quantize(fx(1000.0)).0, 15);
    assert_eq!(p.quantize(fx(-1000.0)).0, 0);
}

#[test]
fn constant_sample_is_safe_for_both_schemes() {
    let values: Vec<Fx> = (0..10).map(|_| fx(2.5)).collect();
    let q = OffsetQuant::from_values(&values);
    assert_eq!(q.scaling_factor.m, 0);
    assert_eq!(q.quantize(fx(-100.0)).0, 0);
    assert_eq!(q.quantize(fx(2.5)).0, 0);
    assert_eq!(q.quantize(fx(100.0)).0, 0);
    assert_eq!(to_f64(q.dequantize(u4(0))), 2.5);

    let zeros: Vec<Fx> = (0..10).map(|_| fx(0.0)).collect();
    let s = ScaledQuant::from_values(&zeros);
    assert_eq!(s.scaling_factor.m, 0);
    assert_eq!(s.quantize(fx(-100.0)).0, 8);
    assert_eq!(s.quantize(fx(100.0)).0, 8);
    assert_eq!(to_f64(s.dequantize(u4(8))), 0.0);

    let constant = ScaledQuant::from_values(&values);
    let back = to_f64(constant.dequantize(constant.quantize(fx(2.5))));
    assert!((back - 2.5).abs() <= to_f64(constant.scaling_factor));
}

#[test]
fn round_trip_stays_within_one_scale_step() {
    let sample: Vec<Fx> = vec![fx(-4.0), fx(2.0), fx(7.0)];
    let q = ScaledQuant::from_values(&sample);
    let s = to_f64(q.scaling_factor);
    let mut x = -7.0;
    while x <= 7.0 {
        let v = fx(x);
        let back = to_f64(q.dequantize(q.quantize(v)));
        assert!((back - to_f64(v)).abs() <= s);
        x += 0.37;
    }
    let p = OffsetQuant::from_values(&sample);
    let sp = to_f64(p.scaling_factor);
    let off = to_f64(p.offset_factor);
    let mut y = off;
    while y <= off + 15.0 * sp {
        let v = fx(y);
        let back = to_f64(p.dequantize(p.quantize(v)));
        assert!((back - to_f64(v)).abs() <= sp);
        y += 0.53;
    }
}

#[test]
fn storage_packs_two_codes_per_byte_in_index_order() {
    let values: Vec<Fx> = (0i64..15).map(Fx::from_int).collect();
    let mut st: QuantStorage<OffsetQuant> = QuantStorage::from_values(&values);
    assert_eq!(st.element_count(), 15);
    assert_eq!(st.size_bytes(), 8);
    let codes: Vec<u8> = (0..15).map(|i| st.get(i).0).collect();
    for (i, c) in codes.iter().enumerate() {
        assert!(*c <= 15);
        let s = to_f64(st.scheme.scaling_factor);
        assert!((to_f64(st.get_value(i)) - i as f64).abs() <= s);
    }
    st.set(2, u4(9));
    assert_eq!(st.get(2).0, 9);
    assert_eq!(st.get(1).0, codes[1]);
    assert_eq!(st.get(3).0, codes[3]);
}
