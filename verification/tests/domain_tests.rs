use tiny_zk_stark::domain::{EvaluationDomain, StarkDomain};
use tiny_zk_stark::error::StarkError;
use tiny_zk_stark::field_babybear::FpBabyBear;

#[test]
fn stark_domain_sizes_and_generators() {
    let d = StarkDomain::new(16, 4).unwrap();
    assert_eq!(d.trace_domain.size(), 16);
    assert_eq!(d.lde_domain.size(), 64);
    assert_eq!(d.blowup_factor, 4);
    assert_eq!(d.lde_domain.offset, FpBabyBear::from_u64(31));
    assert_eq!(d.trace_domain.offset, FpBabyBear::one());
    assert_eq!(d.trace_generator(), FpBabyBear::get_root_of_unity(16).unwrap());
    assert_eq!(d.lde_generator(), FpBabyBear::get_root_of_unity(64).unwrap());
    assert_eq!(d.trace_generator().pow(16), FpBabyBear::one());
}

#[test]
fn stark_domain_rounds_up_to_powers_of_two() {
    let d = StarkDomain::new(10, 2).unwrap();
    assert_eq!(d.trace_domain.size(), 16);
    assert_eq!(d.lde_domain.size(), 32);
}

#[test]
fn stark_domain_errors() {
    assert_eq!(StarkDomain::new(16, 3).unwrap_err(), StarkError::BlowupNotPowerOfTwo);
    assert_eq!(StarkDomain::new(16, 0).unwrap_err(), StarkError::BlowupNotPowerOfTwo);
    assert_eq!(StarkDomain::new(1 << 28, 1).unwrap_err(), StarkError::DomainTooLarge);
    assert_eq!(StarkDomain::new(1 << 26, 4).unwrap_err(), StarkError::DomainTooLarge);
    // the blowup factor is checked before any product is formed
    assert_eq!(StarkDomain::new(usize::MAX, 3).unwrap_err(), StarkError::BlowupNotPowerOfTwo);
    // an oversized trace fails before the product with the blowup factor is formed
    assert_eq!(StarkDomain::new(usize::MAX, 4).unwrap_err(), StarkError::DomainTooLarge);
}

#[test]
fn evaluation_domain_elements() {
    let d = EvaluationDomain::new(5).unwrap();
    assert_eq!(d.size(), 8);
    let g = d.group_gen();
    let els = d.elements();
    assert_eq!(els.len(), 8);
    for (i, x) in els.iter().enumerate() {
        assert_eq!(*x, g.pow(i as u64));
        assert_eq!(*x, d.element(i));
    }
    assert_eq!(EvaluationDomain::new(0).unwrap().size(), 1);
    assert!(EvaluationDomain::new((1 << 27) + 1).is_none());
}

#[test]
fn coset_elements_are_shifted() {
    let offset = FpBabyBear::from_u64(31);
    let d = EvaluationDomain::new_coset(4, offset).unwrap();
    assert_eq!(d.element(0), offset);
    assert_eq!(d.element(1), offset.mul(d.group_gen()));
    assert!(EvaluationDomain::new_coset(4, FpBabyBear::zero()).is_none());
}
