use rmi_models::float_bits::{
    float_bits_eq, float_bits_mul, float_bits_to_u64, u64_to_float_bits, CANONICAL_NAN_BITS,
    MAX_FINITE_BITS,
};
use rmi_models::float_add::float_bits_add;
use rmi_models::model_input::ModelInput;
use rmi_models::model_param::{ModelDataType, ModelParam, ModelRestriction};

#[test]
fn data_type_c_names() {
    assert_eq!(ModelDataType::Int.c_type(), "uint64_t");
    assert_eq!(ModelDataType::Float.c_type(), "double");
    assert_ne!(ModelRestriction::MustBeTop, ModelRestriction::MustBeBottom);
}

fn texts(fs: &[f64]) -> Vec<String> {
    fs.iter().map(|f| format!("{:.}", f)).collect()
}

#[test]
fn param_c_values() {
    assert_eq!(ModelParam::Int(42).c_val(&vec![]), "42UL");
    assert_eq!(ModelParam::Int(0).c_val(&vec![]), "0UL");
    assert_eq!(ModelParam::Int(u64::MAX).c_val(&vec![]), "18446744073709551615UL");
    assert_eq!(ModelParam::Float(3.0f64.to_bits()).c_val(&texts(&[3.0])), "3.0");
    assert_eq!(ModelParam::Float(0.25f64.to_bits()).c_val(&texts(&[0.25])), "0.25");
    assert_eq!(ModelParam::ShortArray(vec![1, 20, 300]).c_val(&vec![]), "{ 1, 20, 300 }");
    assert_eq!(ModelParam::IntArray(vec![7, 8]).c_val(&vec![]), "{ 7UL, 8UL }");
    assert_eq!(ModelParam::Int32Array(vec![5]).c_val(&vec![]), "{ 5UL }");
    assert_eq!(ModelParam::IntArray(vec![]).c_val(&vec![]), "{  }");
    let fs = [1.5f64, 2.0, -7.0];
    let bits: Vec<u64> = fs.iter().map(|f| f.to_bits()).collect();
    assert_eq!(ModelParam::FloatArray(bits).c_val(&texts(&fs)), "{ 1.5, 2.0, -7.0 }");
}

#[test]
fn param_types_and_sizes() {
    let params = vec![
        ModelParam::Int(1),
        ModelParam::Float(1.0f64.to_bits()),
        ModelParam::ShortArray(vec![1, 2, 3]),
        ModelParam::IntArray(vec![1, 2]),
        ModelParam::Int32Array(vec![1, 2, 3, 4]),
        ModelParam::FloatArray(vec![0, 0, 0]),
    ];
    let sizes = [8, 8, 6, 16, 16, 24];
    let lens = [1, 1, 3, 2, 4, 3];
    let ctypes = ["uint64_t", "double", "short", "uint64_t", "uint32_t", "double"];
    for (i, p) in params.iter().enumerate() {
        assert_eq!(p.size(), sizes[i]);
        assert_eq!(p.len(), lens[i]);
        assert_eq!(p.c_type(), ctypes[i]);
        assert_eq!(p.is_array(), i >= 2);
        assert_eq!(p.c_type_mod(), if i >= 2 { "[]" } else { "" });
        for (j, q) in params.iter().enumerate() {
            assert_eq!(p.is_same_type(q), i == j);
        }
        let mut out = vec![9u8];
        p.write_to(&mut out);
        assert_eq!(out.len(), 1 + p.size());
        assert_eq!(out[0], 9);
    }
}

#[test]
fn param_bytes_are_little_endian() {
    let mut out = Vec::new();
    ModelParam::Int(0x0102030405060708).write_to(&mut out);
    assert_eq!(out, vec![8, 7, 6, 5, 4, 3, 2, 1]);

    let mut out = Vec::new();
    ModelParam::ShortArray(vec![0x0102, 0xa0b0]).write_to(&mut out);
    assert_eq!(out, vec![2, 1, 0xb0, 0xa0]);

    let mut out = Vec::new();
    ModelParam::Int32Array(vec![0xdeadbeef]).write_to(&mut out);
    assert_eq!(out, vec![0xef, 0xbe, 0xad, 0xde]);

    let mut out = Vec::new();
    ModelParam::Float(1.5f64.to_bits()).write_to(&mut out);
    assert_eq!(out, 1.5f64.to_le_bytes().to_vec());

    let mut out = Vec::new();
    ModelParam::FloatArray(vec![2.5f64.to_bits(), (-1.0f64).to_bits()]).write_to(&mut out);
    let mut expected = 2.5f64.to_le_bytes().to_vec();
    expected.extend_from_slice(&(-1.0f64).to_le_bytes());
    assert_eq!(out, expected);
}

#[test]
fn param_from_conversions() {
    assert!(matches!(ModelParam::from(5usize), ModelParam::Int(5)));
    assert!(matches!(ModelParam::from(6u64), ModelParam::Int(6)));
    assert!(matches!(ModelParam::from(7u8), ModelParam::Int(7)));
    assert!(matches!(ModelParam::from(vec![1u16]), ModelParam::ShortArray(_)));
    assert!(matches!(ModelParam::from(vec![1u64]), ModelParam::IntArray(_)));
    assert!(matches!(ModelParam::from(vec![1u32]), ModelParam::Int32Array(_)));
}

#[test]
fn model_input_equality() {
    assert_eq!(ModelInput::Int(3), ModelInput::Int(3));
    assert_ne!(ModelInput::Int(3), ModelInput::Int(4));
    assert_ne!(ModelInput::Int(3), ModelInput::Float(3.0f64.to_bits()));
    assert_eq!(ModelInput::Float(0.0f64.to_bits()), ModelInput::Float((-0.0f64).to_bits()));
    assert_ne!(ModelInput::Float(f64::NAN.to_bits()), ModelInput::Float(f64::NAN.to_bits()));
    assert_eq!(ModelInput::from(9u64), ModelInput::Int(9));
}

#[test]
fn model_input_max_and_casts() {
    assert_eq!(ModelInput::Int(1).max_value(), ModelInput::Int(u64::MAX));
    assert_eq!(ModelInput::Float(0).max_value(), ModelInput::Float(f64::MAX.to_bits()));
    assert_eq!(MAX_FINITE_BITS, f64::MAX.to_bits());
    assert_eq!(ModelInput::Float(12.9f64.to_bits()).as_int(), 12);
    assert_eq!(ModelInput::Int(12).as_float(), 12.0f64.to_bits());
}

fn sample_floats() -> Vec<f64> {
    let mut v = vec![
        0.0, -0.0, 0.5, 0.999999, 1.0, 1.5, 2.0, 3.75, 1e10, 1e15, 9007199254740993.0,
        1.8446744073709552e19, 1.8446744073709550e19, 1e19, 1e20, 1e300, -1.0, -1e20,
        f64::MIN_POSITIVE, 4.9e-324, f64::MAX, f64::INFINITY, f64::NEG_INFINITY, f64::NAN,
        -f64::NAN, 4503599627370495.5, 4503599627370496.0,
    ];
    let mut x: u64 = 0x9e3779b97f4a7c15;
    for _ in 0..2000 {
        x ^= x << 13;
        x ^= x >> 7;
        x ^= x << 17;
        v.push(f64::from_bits(x));
    }
    v
}

#[test]
fn float_to_u64_matches_cast() {
    for f in sample_floats() {
        assert_eq!(float_bits_to_u64(f.to_bits()), f as u64, "{:e}", f);
    }
}

#[test]
fn u64_to_float_matches_cast() {
    let mut xs: Vec<u64> = vec![0, 1, 2, 3, 10, (1 << 52) - 1, 1 << 52, (1 << 53) - 1, 1 << 53,
        (1 << 53) + 1, (1 << 53) + 2, (1 << 53) + 3, (1 << 54) + 2, (1 << 54) + 6, u64::MAX,
        u64::MAX - 1024, u64::MAX - 1025, 1 << 63, (1 << 63) + 1024, (1 << 63) + 1025];
    let mut x: u64 = 0x2545f4914f6cdd1d;
    for _ in 0..5000 {
        x ^= x << 13;
        x ^= x >> 7;
        x ^= x << 17;
        xs.push(x);
        xs.push(x >> (x % 64));
    }
    for x in xs {
        assert_eq!(u64_to_float_bits(x), (x as f64).to_bits(), "{}", x);
    }
}

#[test]
fn float_equality_matches_eq() {
    let fs = sample_floats();
    for a in fs.iter().take(60) {
        for b in fs.iter().take(60) {
            assert_eq!(float_bits_eq(a.to_bits(), b.to_bits()), a == b);
        }
    }
}

#[test]
fn float_product_matches_mul() {
    let mut fs = sample_floats();
    fs.extend_from_slice(&[12.5, 0.1, 3.0, 1e-300, 1e-10, 2.2250738585072014e-308, 0.5, 7.0]);
    for a in fs.iter() {
        for b in fs.iter().take(80) {
            let got = float_bits_mul(a.to_bits(), b.to_bits());
            let want = a * b;
            if want.is_nan() {
                assert_eq!(got, CANONICAL_NAN_BITS, "{:e} * {:e}", a, b);
            } else {
                assert_eq!(got, want.to_bits(), "{:e} * {:e}", a, b);
            }
        }
    }
}

#[test]
fn float_product_of_scaled_offsets() {
    for off in 0..5000u64 {
        for scale in [0.1f64, 0.29, 12.5, 1.0 / 3.0, 7.0 / 100.0, 1e-5, 123456.789] {
            let got = float_bits_mul(u64_to_float_bits(off), scale.to_bits());
            assert_eq!(got, (off as f64 * scale).to_bits());
        }
    }
}

#[test]
fn float_sum_matches_add() {
    let mut fs = sample_floats();
    fs.extend_from_slice(&[
        f64::EPSILON, -f64::EPSILON, 1.0 + f64::EPSILON, 2.0, 3.0, 1e16, -1e16, 0.1, 0.2, -0.3,
        2.2250738585072014e-308, -2.2250738585072014e-308, 5e-324, -5e-324, 1.0, -1.0,
    ]);
    for a in fs.iter() {
        for b in fs.iter().rev().take(120) {
            let got = float_bits_add(a.to_bits(), b.to_bits());
            let want = a + b;
            if want.is_nan() {
                assert_eq!(got, CANONICAL_NAN_BITS, "{:e} + {:e}", a, b);
            } else {
                assert_eq!(got, want.to_bits(), "{:e} + {:e}", a, b);
            }
        }
    }
}

#[test]
fn float_sum_near_values() {
    let mut x: u64 = 0x1234_5678_9abc_def1;
    for _ in 0..20000 {
        x ^= x << 13;
        x ^= x >> 7;
        x ^= x << 17;
        let a = f64::from_bits(x);
        let shift = (x >> 3) % 70;
        let b = f64::from_bits(x.rotate_left(7) & !(0x7ff << 52) | ((((x >> 52) & 0x7ff).saturating_sub(shift)) << 52));
        for (p, q) in [(a, b), (a, -b), (b, a), (-a, b)] {
            let got = float_bits_add(p.to_bits(), q.to_bits());
            let want = p + q;
            if want.is_nan() {
                assert_eq!(got, CANONICAL_NAN_BITS);
            } else {
                assert_eq!(got, want.to_bits(), "{:e} + {:e}", p, q);
            }
        }
    }
}

#[test]
fn model_input_epsilon_steps() {
    assert_eq!(ModelInput::Int(5).minus_epsilon(), ModelInput::Int(4));
    assert_eq!(ModelInput::Int(5).plus_epsilon(), ModelInput::Int(6));
    for f in sample_floats() {
        let down = ModelInput::Float(f.to_bits()).minus_epsilon();
        let up = ModelInput::Float(f.to_bits()).plus_epsilon();
        let (want_down, want_up) = (f - f64::EPSILON, f + f64::EPSILON);
        match (down, up) {
            (ModelInput::Float(d), ModelInput::Float(u)) => {
                if !want_down.is_nan() {
                    assert_eq!(d, want_down.to_bits(), "{:e}", f);
                }
                if !want_up.is_nan() {
                    assert_eq!(u, want_up.to_bits(), "{:e}", f);
                }
            }
            _ => panic!("a binary64 key stays a binary64 key"),
        }
    }
    assert_eq!(ModelInput::Float(1.0f64.to_bits()).plus_epsilon(), ModelInput::Float((1.0 + f64::EPSILON).to_bits()));
    assert_eq!(ModelInput::Float(f64::EPSILON.to_bits()).minus_epsilon(), ModelInput::Float(0.0f64.to_bits()));
}

#[test]
fn float_c_literal_parses_back() {
    for v in sample_floats().into_iter().filter(|v| v.is_finite()) {
        let s = ModelParam::Float(v.to_bits()).c_val(&texts(&[v]));
        assert!(s.contains('.'), "{}", s);
        assert!(!s.contains('e'), "{}", s);
        assert_eq!(s.parse::<f64>(), Ok(v));
    }
}
