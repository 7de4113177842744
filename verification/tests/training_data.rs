use rmi_models::model_input::ModelInput;
use rmi_models::training_data::{KeyType, RMITrainingData, RMITrainingDataIteratorProvider};
use std::cmp::Ordering;

#[test]
fn test_scale() {
    let mut v = RMITrainingData::from_vec(vec![(0, 0), (1, 1), (3, 2), (100, 3)]);

    v.set_scale((50.0f64 / 4.0).to_bits());

    let results = v.iter_uint_uint();
    assert_eq!(results[0].1, 0);
    assert_eq!(results[1].1, 12);
    assert_eq!(results[2].1, 25);
    assert_eq!(results[3].1, 37);
}

#[test]
fn test_iter() {
    let data = vec![(0, 1), (1, 2), (3, 3), (100, 4)];

    let v = RMITrainingData::from_vec(data.clone());

    let iterated: Vec<(u64, u64)> = v.iter_uint_uint();
    let expected: Vec<(u64, u64)> = data.iter().map(|&(k, o)| (k, o as u64)).collect();
    assert_eq!(expected, iterated);
}

#[test]
fn empty_has_no_pairs() {
    let v = RMITrainingData::empty();
    assert_eq!(v.len(), 0);
    assert_eq!(v.key_type(), KeyType::U64);
    assert!(v.iter_uint_usize().is_empty());
    assert_eq!(v.lower_bound_by(|(k, _)| k.cmp(&5)), 0);
}

#[test]
fn get_matches_iterators() {
    let mut v = RMITrainingData::from_vec(vec![(5, 0), (7, 1), (9, 2)]);
    v.set_scale(1.5f64.to_bits());
    let all = v.iter_uint_usize();
    for i in 0..v.len() {
        assert_eq!(v.get_uint_usize(i), all[i]);
        assert_eq!(v.get_uint(i), (all[i].0, all[i].1 as u64));
        assert_eq!(v.get_key(i), ModelInput::Int(all[i].0));
    }
    assert_eq!(all, vec![(5, 0), (7, 1), (9, 3)]);
}

#[test]
fn scale_saturates() {
    let mut v = RMITrainingData::from_vec(vec![(1, usize::MAX)]);
    v.set_scale(2.0f64.to_bits());
    assert_eq!(v.get_uint_usize(0), (1, usize::MAX));
    assert_eq!(v.get_uint(0), (1, u64::MAX));
    v.set_scale(0.0f64.to_bits());
    assert_eq!(v.get_uint(0), (1, 0));
}

#[test]
fn soft_copy_shares_pairs_and_scale() {
    let mut v = RMITrainingData::from_vec(vec![(1, 10), (2, 20)]);
    v.set_scale(0.1f64.to_bits());
    let c = v.soft_copy();
    assert_eq!(c.iter_uint_uint(), v.iter_uint_uint());
    assert_eq!(c.iter_uint_uint(), vec![(1, 1), (2, 2)]);
}

#[test]
fn float_keys_are_truncated() {
    let pairs = vec![(2.75f64.to_bits(), 0), ((-3.0f64).to_bits(), 1), (1e30f64.to_bits(), 2)];
    let v = RMITrainingData::new(RMITrainingDataIteratorProvider::F64Pairs(pairs));
    assert_eq!(v.key_type(), KeyType::F64);
    assert_eq!(v.iter_uint_usize(), vec![(2, 0), (0, 1), (u64::MAX, 2)]);
    assert_eq!(v.get_key(0), ModelInput::Float(2.75f64.to_bits()));
}

#[test]
fn model_inputs_take_first_key_type() {
    let pairs = vec![(ModelInput::Int(3), 0), (ModelInput::Float(7.9f64.to_bits()), 1)];
    let v = RMITrainingData::new(RMITrainingDataIteratorProvider::ModelInputPairs(pairs));
    assert_eq!(v.key_type(), KeyType::U64);
    assert_eq!(v.iter_model_input(), vec![(ModelInput::Int(3), 0), (ModelInput::Int(7), 1)]);

    let pairs = vec![(ModelInput::Float(0.5f64.to_bits()), 4), (ModelInput::Int(9), 5)];
    let v = RMITrainingData::new(RMITrainingDataIteratorProvider::ModelInputPairs(pairs));
    assert_eq!(v.key_type(), KeyType::F64);
    assert_eq!(
        v.iter_model_input(),
        vec![(ModelInput::Float(0.5f64.to_bits()), 4), (ModelInput::Float(9.0f64.to_bits()), 5)]
    );
    assert_eq!(v.iter_uint_usize(), vec![(0, 4), (9, 5)]);
}

#[test]
fn provider_streams() {
    let p = RMITrainingDataIteratorProvider::ModelInputPairs(vec![
        (ModelInput::Int(4), 0),
        (ModelInput::Float(6.5f64.to_bits()), 1),
    ]);
    assert_eq!(p.len(), 2);
    assert_eq!(p.key_type(), KeyType::U64);
    assert_eq!(p.cdf_iter(), vec![(4, 0), (6, 1)]);
    let q = RMITrainingDataIteratorProvider::F64Pairs(vec![(1.5f64.to_bits(), 3)]);
    assert_eq!(q.cdf_iter_float_keys(), vec![(1.5f64.to_bits(), 3)]);
}

fn lower_bound_by_key(v: &RMITrainingData, key: u64) -> usize {
    v.lower_bound_by(|(k, _)| k.cmp(&key))
}

#[test]
fn lower_bound_finds_first_not_less() {
    let keys: Vec<(u64, usize)> = vec![(1, 0), (3, 1), (3, 2), (5, 3), (8, 4), (13, 5), (21, 6)];
    let v = RMITrainingData::from_vec(keys.clone());
    for key in 0..25u64 {
        let expected = keys.iter().filter(|(k, _)| *k < key).count();
        assert_eq!(lower_bound_by_key(&v, key), expected, "key {}", key);
    }
    assert_eq!(lower_bound_by_key(&v, 3), 1);
    assert_eq!(lower_bound_by_key(&v, 100), 7);
}

#[test]
fn lower_bound_on_every_length() {
    for n in 0..40usize {
        let keys: Vec<(u64, usize)> = (0..n).map(|i| (2 * i as u64, i)).collect();
        let v = RMITrainingData::from_vec(keys);
        for key in 0..(2 * n as u64 + 2) {
            let expected = ((key + 1) / 2) as usize;
            assert_eq!(lower_bound_by_key(&v, key).min(n), expected.min(n));
            assert_eq!(lower_bound_by_key(&v, key), expected.min(n));
        }
    }
}

#[test]
fn lower_bound_sees_scaled_offsets() {
    let mut v = RMITrainingData::from_vec(vec![(1, 0), (2, 1), (3, 2), (4, 3)]);
    v.set_scale(10.0f64.to_bits());
    let r = v.lower_bound_by(|(_, off)| if off < 15 { Ordering::Less } else { Ordering::Greater });
    assert_eq!(r, 2);
}

#[test]
fn scaled_offsets_match_float_arithmetic() {
    let offsets: Vec<usize> = (0..3000).map(|i| i * 7919 % 100003).collect();
    let pairs: Vec<(u64, usize)> = offsets.iter().map(|&o| (o as u64, o)).collect();
    let mut v = RMITrainingData::from_vec(pairs);
    for scale in [0.29f64, 1.0 / 3.0, 0.07, 12.5, 1e-3, 3.5e12, -2.0, f64::NAN, f64::INFINITY] {
        v.set_scale(scale.to_bits());
        assert_eq!(v.scale(), scale.to_bits());
        let uu = v.iter_uint_usize();
        let u64s = v.iter_uint_uint();
        let ff = v.iter_float_float();
        for (i, &o) in offsets.iter().enumerate() {
            assert_eq!(uu[i].1, (o as f64 * scale) as usize);
            assert_eq!(u64s[i].1, (o as f64 * scale) as u64);
            let p = o as f64 * scale;
            if !p.is_nan() {
                assert_eq!(ff[i].1, p.to_bits());
            }
            assert_eq!(ff[i].0, (o as f64).to_bits());
            assert_eq!(v.get(i), ff[i]);
        }
    }
}

#[test]
fn float_view_of_float_keys() {
    let pairs = vec![(0.5f64.to_bits(), 3), ((-8.25f64).to_bits(), 4)];
    let mut v = RMITrainingData::new(RMITrainingDataIteratorProvider::F64Pairs(pairs));
    v.set_scale(2.0f64.to_bits());
    assert_eq!(
        v.iter_float_float(),
        vec![(0.5f64.to_bits(), 6.0f64.to_bits()), ((-8.25f64).to_bits(), 8.0f64.to_bits())]
    );
}

#[test]
fn lower_bound_examples_from_keys() {
    let d = RMITrainingData::from_vec(vec![(1, 0), (3, 1), (5, 2), (7, 3)]);
    assert_eq!(d.lower_bound_by(|(k, _)| k.cmp(&5)), 2);
    assert_eq!(d.lower_bound_by(|(k, _)| k.cmp(&4)), 2);
    assert_eq!(d.lower_bound_by(|(k, _)| k.cmp(&8)), 4);
    assert_eq!(d.lower_bound_by(|(k, _)| k.cmp(&0)), 0);

    let d = RMITrainingData::from_vec(vec![(2, 0), (2, 1), (2, 2)]);
    assert_eq!(d.lower_bound_by(|(k, _)| k.cmp(&2)), 0);
    assert_eq!(d.lower_bound_by(|(k, _)| k.cmp(&3)), 3);
}
