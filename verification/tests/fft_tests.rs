use tiny_zk_stark::error::StarkError;
use tiny_zk_stark::fft::{exact_log2, intt, ntt};
use tiny_zk_stark::field_babybear::FpBabyBear;

fn fs(xs: &[u64]) -> Vec<FpBabyBear> {
    xs.iter().map(|&x| FpBabyBear::from_u64(x)).collect()
}

#[test]
fn ntt_of_a_constant_polynomial_is_constant() {
    let mut a = fs(&[1, 0, 0, 0]);
    ntt(&mut a).unwrap();
    assert_eq!(a, fs(&[1, 1, 1, 1]));
}

#[test]
fn ntt_of_x_lists_the_roots() {
    let w = FpBabyBear::get_root_of_unity(4).unwrap();
    let mut a = fs(&[0, 1, 0, 0]);
    ntt(&mut a).unwrap();
    assert_eq!(a, vec![FpBabyBear::one(), w, w.pow(2), w.pow(3)]);
}

#[test]
fn intt_undoes_ntt() {
    let original = fs(&[5, 17, 0, 2013265920, 3, 99, 1234567, 42]);
    let mut a = original.clone();
    ntt(&mut a).unwrap();
    assert_ne!(a, original);
    intt(&mut a).unwrap();
    assert_eq!(a, original);
}

#[test]
fn ntt_undoes_intt() {
    let original = fs(&[1, 1, 2, 3, 5, 8, 13, 21]);
    let mut a = original.clone();
    intt(&mut a).unwrap();
    ntt(&mut a).unwrap();
    assert_eq!(a, original);
}

#[test]
fn pointwise_products_are_cyclic_convolutions() {
    let a = fs(&[1, 2, 0, 0]);
    let b = fs(&[3, 4, 0, 0]);
    let mut fa = a.clone();
    let mut fb = b.clone();
    ntt(&mut fa).unwrap();
    ntt(&mut fb).unwrap();
    let mut prod: Vec<FpBabyBear> = fa.iter().zip(fb.iter()).map(|(x, y)| x.mul(*y)).collect();
    intt(&mut prod).unwrap();
    assert_eq!(prod, fs(&[3, 10, 8, 0]));
}

#[test]
fn ntt_rejects_lengths_that_are_not_powers_of_two() {
    let original = fs(&[1, 2, 3]);
    let mut a = original.clone();
    assert_eq!(ntt(&mut a), Err(StarkError::NttSizeNotPowerOfTwo));
    assert_eq!(a, original);
    assert_eq!(intt(&mut a), Err(StarkError::NttSizeNotPowerOfTwo));
    assert_eq!(a, original);
}

#[test]
fn tiny_inputs_are_left_alone() {
    let mut empty: Vec<FpBabyBear> = vec![];
    assert_eq!(ntt(&mut empty), Ok(()));
    assert!(empty.is_empty());
    let mut one = fs(&[7]);
    assert_eq!(intt(&mut one), Ok(()));
    assert_eq!(one, fs(&[7]));
}

#[test]
fn exact_logarithms() {
    assert_eq!(exact_log2(1), Some(0));
    assert_eq!(exact_log2(8), Some(3));
    assert_eq!(exact_log2(1 << 40), Some(40));
    assert_eq!(exact_log2(6), None);
    assert_eq!(exact_log2(0), None);
}
