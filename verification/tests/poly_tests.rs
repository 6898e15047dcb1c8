use tiny_zk_stark::error::StarkError;
use tiny_zk_stark::field_babybear::FpBabyBear;
use tiny_zk_stark::poly::{
    copy_poly, eval, is_zero_poly, lagrange_interpolate, poly_add, poly_div, poly_mul, poly_scale,
    poly_shift, poly_sub,
};

const P: u64 = 2013265921;

fn f(x: u64) -> FpBabyBear {
    FpBabyBear::from_u64(x)
}

fn fs(xs: &[u64]) -> Vec<FpBabyBear> {
    xs.iter().map(|&x| f(x)).collect()
}

#[test]
fn eval_uses_horner_free_powers() {
    assert_eq!(eval(&fs(&[1, 2, 3]), f(2)), f(17));
    assert_eq!(eval(&[], f(5)), f(0));
    assert_eq!(eval(&fs(&[P - 1, 0, 1]), f(1)), f(0));
}

#[test]
fn add_pads_the_shorter_operand() {
    assert_eq!(poly_add(&fs(&[1, 2]), &fs(&[3])), fs(&[4, 2]));
    assert_eq!(poly_add(&fs(&[P - 1]), &fs(&[1, 0, 0])), fs(&[0, 0, 0]));
}

#[test]
fn sub_trims_trailing_zeros() {
    assert_eq!(poly_sub(&fs(&[1, 2]), &fs(&[1, 2])), fs(&[0]));
    assert_eq!(poly_sub(&fs(&[5]), &fs(&[1, 0, 0])), fs(&[4]));
    assert_eq!(poly_sub(&fs(&[0]), &fs(&[1])), fs(&[P - 1]));
    assert_eq!(poly_sub(&[], &[]), Vec::<FpBabyBear>::new());
}

#[test]
fn mul_multiplies() {
    assert_eq!(poly_mul(&fs(&[1, 1]), &fs(&[1, 1])), Ok(fs(&[1, 2, 1])));
    assert_eq!(poly_mul(&fs(&[P - 2, 1]), &fs(&[3, 0, 1])), Ok(fs(&[P - 6, 3, P - 2, 1])));
    assert_eq!(poly_mul(&[], &fs(&[1])), Ok(vec![]));
}

#[test]
fn div_gives_quotient_and_remainder() {
    assert_eq!(poly_div(&fs(&[P - 1, 0, 1]), &fs(&[P - 1, 1])), Ok((fs(&[1, 1]), fs(&[0]))));
    assert_eq!(poly_div(&fs(&[1, 0, 1]), &fs(&[P - 1, 1])), Ok((fs(&[1, 1]), fs(&[2]))));
    assert_eq!(poly_div(&fs(&[1]), &fs(&[1, 1])), Ok((vec![], fs(&[1]))));
}

#[test]
fn div_reproduces_the_dividend() {
    let a = fs(&[7, 0, 3, 11, 5]);
    let b = fs(&[2, 9, 4]);
    let (q, r) = poly_div(&a, &b).unwrap();
    assert!(r.len() < b.len());
    let qb = poly_mul(&q, &b).unwrap();
    assert_eq!(poly_add(&qb, &r), a);
}

#[test]
fn div_errors() {
    assert_eq!(poly_div(&fs(&[1, 2]), &fs(&[0, 0])), Err(StarkError::DivisionByZero));
    assert_eq!(poly_div(&fs(&[1, 2]), &[]), Err(StarkError::DivisionByZero));
    assert_eq!(
        poly_div(&fs(&[1, 2, 3]), &fs(&[1, 0])),
        Err(StarkError::LeadingCoefficientNotInvertible)
    );
}

#[test]
fn shift_and_scale() {
    assert_eq!(poly_shift(&fs(&[1, 1, 1]), f(2)), fs(&[1, 2, 4]));
    assert_eq!(poly_scale(&fs(&[1, 2]), f(3)), fs(&[3, 6]));
    assert_eq!(poly_shift(&[], f(2)), Vec::<FpBabyBear>::new());
}

#[test]
fn shifted_polynomial_evaluates_at_scaled_point() {
    let a = fs(&[4, 0, 9, 1]);
    let c = f(5);
    let t = f(12);
    assert_eq!(eval(&poly_shift(&a, c), t), eval(&a, c.mul(t)));
}

#[test]
fn lagrange_through_three_points() {
    let points = vec![(f(1), f(2)), (f(2), f(3)), (f(3), f(5))];
    let res = lagrange_interpolate(&points).unwrap();
    assert_eq!(res, fs(&[2, (P - 1) / 2, (P + 1) / 2]));
    for (x, y) in points {
        assert_eq!(eval(&res, x), y);
    }
}

#[test]
fn lagrange_edge_cases() {
    assert_eq!(lagrange_interpolate(&[]), Ok(fs(&[0])));
    assert_eq!(lagrange_interpolate(&[(f(9), f(4))]), Ok(fs(&[4])));
}

#[test]
fn zero_test_and_copy() {
    assert!(is_zero_poly(&fs(&[0, 0])));
    assert!(is_zero_poly(&[]));
    assert!(!is_zero_poly(&fs(&[0, 1])));
    assert_eq!(copy_poly(&fs(&[3, 4])), fs(&[3, 4]));
}

#[test]
fn exact_division_leaves_a_single_zero_remainder() {
    // x^2 - 1 = (x + 1)(x - 1)
    assert_eq!(poly_div(&fs(&[P - 1, 0, 1]), &fs(&[P - 1, 1])), Ok((fs(&[1, 1]), fs(&[0]))));
    // a divisor of higher degree leaves the dividend as remainder
    assert_eq!(poly_div(&fs(&[1, 2]), &fs(&[0, 0, 1])), Ok((vec![], fs(&[1, 2]))));
    // a constant divisor leaves no remainder coefficient at all
    assert_eq!(poly_div(&fs(&[2, 4]), &fs(&[2])), Ok((fs(&[1, 2]), vec![])));
}
