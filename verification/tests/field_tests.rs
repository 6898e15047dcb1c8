use tiny_zk_stark::field_babybear::FpBabyBear;

const P: u64 = 2013265921;

fn f(x: u64) -> FpBabyBear {
    FpBabyBear::from_u64(x)
}

#[test]
fn from_u64_reduces_modulo_p() {
    assert_eq!(f(P), FpBabyBear::zero());
    assert_eq!(f(P + 5).value(), 5);
    assert!(f(P).is_zero());
    assert!(f(P + 1).is_one());
}

#[test]
fn addition_and_subtraction_wrap() {
    assert_eq!(f(P - 1).add(f(2)), f(1));
    assert_eq!(f(0).sub(f(1)).value(), P - 1);
    assert_eq!(f(1).neg().value(), P - 1);
    assert_eq!(f(0).neg(), f(0));
    assert_eq!(f(21).double(), f(42));
}

#[test]
fn multiplication_reduces() {
    assert_eq!(f(1 << 16).mul(f(1 << 16)).value(), 268435454);
    assert_eq!(f(12).square(), f(144));
    assert_eq!(f(3).pow(5), f(243));
    assert_eq!(f(31).pow(P - 1), FpBabyBear::one());
    assert_eq!(f(7).pow(0), FpBabyBear::one());
}

#[test]
fn inverses() {
    assert_eq!(f(0).inverse(), None);
    assert_eq!(f(31).inverse(), Some(f(64944062)));
    assert_eq!(f(2).inverse(), Some(f(1006632961)));
    let x = f(123456789);
    assert_eq!(x.mul(x.inverse().unwrap()), FpBabyBear::one());
}

#[test]
fn bytes_round_trip() {
    let x = f(0x01020304);
    assert_eq!(x.to_bytes_le(), vec![4, 3, 2, 1, 0, 0, 0, 0]);
    assert_eq!(FpBabyBear::from_le_bytes_mod_order(&x.to_bytes_le()), x);
    assert_eq!(FpBabyBear::from_le_bytes_mod_order(&[1, 0, 0, 0, 0, 0, 0, 0]), f(1));
    assert_eq!(FpBabyBear::from_le_bytes_mod_order(&[0, 0, 0, 0, 1]).value(), 268435454);
    assert_eq!(FpBabyBear::from_le_bytes_mod_order(&[]), f(0));
}

#[test]
fn roots_of_unity() {
    assert_eq!(FpBabyBear::get_root_of_unity(1), Some(f(1)));
    assert_eq!(FpBabyBear::get_root_of_unity(2), Some(f(P - 1)));
    assert_eq!(FpBabyBear::get_root_of_unity(4), Some(f(1728404513)));
    assert_eq!(FpBabyBear::get_root_of_unity(1 << 27), Some(f(440564289)));
    assert_eq!(FpBabyBear::get_root_of_unity(3), None);
    assert_eq!(FpBabyBear::get_root_of_unity(1 << 28), None);
    assert_eq!(FpBabyBear::get_root_of_unity(0), None);
    let w = FpBabyBear::get_root_of_unity(64).unwrap();
    assert_eq!(w.pow(64), FpBabyBear::one());
    assert_eq!(w.pow(32), f(P - 1));
}

#[test]
fn roots_have_exact_order_and_fermat_holds() {
    let w = FpBabyBear::get_root_of_unity(8).unwrap();
    for k in 1..8 {
        assert_ne!(w.pow(k), FpBabyBear::one());
    }
    assert_eq!(w.pow(8), FpBabyBear::one());
    for a in [1u64, 2, 31, 123456789, P - 1] {
        assert_eq!(f(a).pow(P - 1), FpBabyBear::one());
    }
}
