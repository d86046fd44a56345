use similarity_metrics::ratio::Ratio;
use similarity_metrics::{
    abc, cosine_sq, dice, euclidean_sq, forbes, hamming, russell_rao, soergel, tanimoto,
};

#[test]
fn abc_counts_each_class() {
    // positions: both, first-only, second-only, neither
    let f1 = vec![1u8, 1, 0, 0];
    let f2 = vec![1u8, 0, 1, 0];
    assert_eq!(abc(&f1, &f2), (1, 1, 1));
}

#[test]
fn abc_ignores_values_other_than_one() {
    let f1 = vec![2u8, 1, 0];
    let f2 = vec![1u8, 1, 3];
    // only exact ones count as set bits
    assert_eq!(abc(&f1, &f2), (0, 1, 1));
}

#[test]
fn abc_invariant_within_length() {
    let f1 = vec![1u8, 1, 1, 1, 0, 0];
    let f2 = vec![1u8, 0, 1, 0, 1, 0];
    let (a, b, c) = abc(&f1, &f2);
    assert!(a + b + c <= f1.len());
}

#[test]
fn tanimoto_exact_value() {
    let f1 = vec![1u8, 1, 0];
    let f2 = vec![1u8, 0, 1];
    // a = 1, b = 1, c = 1: 1 / 3
    assert_eq!(tanimoto(&f1, &f2), Some(Ratio { num: 1, den: 3 }));
}

#[test]
fn dice_exact_value() {
    let f1 = vec![1u8, 1, 0];
    let f2 = vec![1u8, 0, 1];
    // 2c / (a + b + 2c) = 2 / 4
    assert_eq!(dice(&f1, &f2), Some(Ratio { num: 2, den: 4 }));
}

#[test]
fn cosine_sq_exact_value() {
    let f1 = vec![1u8, 1, 0];
    let f2 = vec![1u8, 0, 1];
    // c^2 / (ta * tb) = 1 / 4
    assert_eq!(cosine_sq(&f1, &f2), Some(Ratio { num: 1, den: 4 }));
}

#[test]
fn russell_rao_exact_value() {
    let f1 = vec![1u8, 1, 0, 0];
    let f2 = vec![1u8, 1, 1, 0];
    assert_eq!(russell_rao(&f1, &f2), Some(Ratio { num: 2, den: 4 }));
}

#[test]
fn forbes_exact_value() {
    let f1 = vec![1u8, 1, 0];
    let f2 = vec![1u8, 0, 1];
    // c * n / (ta * tb) = 3 / 4
    assert_eq!(forbes(&f1, &f2), Some(Ratio { num: 3, den: 4 }));
}

#[test]
fn soergel_exact_value() {
    let f1 = vec![1u8, 1, 0];
    let f2 = vec![1u8, 0, 1];
    // (a + b) / (a + b + c) = 2 / 3
    assert_eq!(soergel(&f1, &f2), Some(Ratio { num: 2, den: 3 }));
}

#[test]
fn hamming_and_euclidean_sq_values() {
    let f1 = vec![1u8, 1, 0, 0];
    let f2 = vec![1u8, 0, 1, 0];
    assert_eq!(hamming(&f1, &f2), 2);
    assert_eq!(euclidean_sq(&f1, &f2), 2);
}

#[test]
fn measures_symmetric_on_concrete_inputs() {
    let f1 = vec![1u8, 1, 0, 1, 0];
    let f2 = vec![0u8, 1, 1, 1, 0];
    assert_eq!(tanimoto(&f1, &f2), tanimoto(&f2, &f1));
    assert_eq!(dice(&f1, &f2), dice(&f2, &f1));
    assert_eq!(cosine_sq(&f1, &f2), cosine_sq(&f2, &f1));
    assert_eq!(soergel(&f1, &f2), soergel(&f2, &f1));
    assert_eq!(hamming(&f1, &f2), hamming(&f2, &f1));
    assert_eq!(euclidean_sq(&f1, &f2), euclidean_sq(&f2, &f1));
}

#[test]
fn measures_identity_on_self() {
    let f = vec![1u8, 0, 1, 1, 0];
    let t = tanimoto(&f, &f).unwrap();
    assert_eq!(t.num, t.den);
    let d = dice(&f, &f).unwrap();
    assert_eq!(d.num, d.den);
    let c = cosine_sq(&f, &f).unwrap();
    assert_eq!(c.num, c.den);
    let s = soergel(&f, &f).unwrap();
    assert_eq!(s.num, 0);
    assert_eq!(hamming(&f, &f), 0);
    assert_eq!(euclidean_sq(&f, &f), 0);
}

#[test]
fn degenerate_inputs_give_none() {
    let z = vec![0u8, 0, 0];
    let f = vec![1u8, 0, 0];
    assert_eq!(tanimoto(&z, &z), None);
    assert_eq!(dice(&z, &z), None);
    assert_eq!(soergel(&z, &z), None);
    // cosine and forbes are undefined as soon as either side is all-zero
    assert_eq!(cosine_sq(&z, &f), None);
    assert_eq!(cosine_sq(&f, &z), None);
    assert_eq!(forbes(&z, &f), None);
    // an empty fingerprint has no defined Russell-Rao value
    let e: Vec<u8> = vec![];
    assert_eq!(russell_rao(&e, &e), None);
}
