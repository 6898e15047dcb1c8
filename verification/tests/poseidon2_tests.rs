use std::sync::Arc;
use tiny_zk_stark::field_babybear::FpBabyBear;
use tiny_zk_stark::merkle_tree_fp::Hasher;
use tiny_zk_stark::poseidon2::{Poseidon2, Poseidon2Params};
use tiny_zk_stark::poseidon2_babybear::{babybear_diag16_elements, babybear_diag24_elements};
use zkhash::ark_ff::PrimeField;
use zkhash::fields::babybear::FpBabyBear as ArkBabyBear;
use zkhash::fields::utils::random_scalar;
use zkhash::poseidon2::poseidon2::Poseidon2 as ArkPoseidon2;
use zkhash::poseidon2::poseidon2_instance_babybear::{
    MAT_DIAG16_M_1, MAT_DIAG24_M_1, MAT_INTERNAL16, MAT_INTERNAL24, POSEIDON2_BABYBEAR_16_PARAMS,
    RC16, RC24,
};

type Scalar = FpBabyBear;

const TESTRUNS: usize = 5;

fn to_lib(x: &ArkBabyBear) -> FpBabyBear {
    FpBabyBear::from_u64(x.into_bigint().0[0])
}

fn to_lib_rows(rows: &[Vec<ArkBabyBear>]) -> Vec<Vec<FpBabyBear>> {
    rows.iter().map(|r| r.iter().map(to_lib).collect()).collect()
}

fn from_hex(s: &str) -> FpBabyBear {
    to_lib(&zkhash::fields::utils::from_hex::<ArkBabyBear>(s))
}

fn random_element() -> FpBabyBear {
    to_lib(&random_scalar::<ArkBabyBear>())
}

fn babybear_16_params() -> Arc<Poseidon2Params> {
    let diag: Vec<FpBabyBear> = MAT_DIAG16_M_1.iter().map(to_lib).collect();
    Arc::new(Poseidon2Params::new(
        16,
        7,
        8,
        13,
        &diag,
        &to_lib_rows(&MAT_INTERNAL16),
        &to_lib_rows(&RC16),
    ))
}

fn babybear_24_params() -> Arc<Poseidon2Params> {
    let diag: Vec<FpBabyBear> = MAT_DIAG24_M_1.iter().map(to_lib).collect();
    Arc::new(Poseidon2Params::new(
        24,
        7,
        8,
        21,
        &diag,
        &to_lib_rows(&MAT_INTERNAL24),
        &to_lib_rows(&RC24),
    ))
}

#[test]
fn consistent_perm() {
    let instances = vec![
        Poseidon2::new(&babybear_16_params()),
        Poseidon2::new(&babybear_24_params()),
    ];
    for instance in instances {
        let t = instance.get_t();
        for _ in 0..TESTRUNS {
            let input1: Vec<Scalar> = (0..t).map(|_| random_element()).collect();

            let mut input2: Vec<Scalar>;
            loop {
                input2 = (0..t).map(|_| random_element()).collect();
                if input1 != input2 {
                    break;
                }
            }

            let perm1 = instance.permutation(&input1);
            let perm2 = instance.permutation(&input1);
            let perm3 = instance.permutation(&input2);
            assert_eq!(perm1, perm2);
            assert_ne!(perm1, perm3);
        }
    }
}

#[test]
fn kats() {
    let poseidon2 = Poseidon2::new(&babybear_24_params());
    let mut input: Vec<Scalar> = vec![];
    for i in 0..poseidon2.get_t() {
        input.push(Scalar::from_u64(i as u64));
    }
    let perm = poseidon2.permutation(&input);
    assert_eq!(perm[0], from_hex("0x2ed3e23d"));
    assert_eq!(perm[1], from_hex("0x12921fb0"));
    assert_eq!(perm[2], from_hex("0x0e659e79"));
    assert_eq!(perm[3], from_hex("0x61d81dc9"));
    assert_eq!(perm[4], from_hex("0x32bae33b"));
    assert_eq!(perm[5], from_hex("0x62486ae3"));
    assert_eq!(perm[6], from_hex("0x1e681b60"));
    assert_eq!(perm[7], from_hex("0x24b91325"));
    assert_eq!(perm[8], from_hex("0x2a2ef5b9"));
    assert_eq!(perm[9], from_hex("0x50e8593e"));
    assert_eq!(perm[10], from_hex("0x5bc818ec"));
    assert_eq!(perm[11], from_hex("0x10691997"));
    assert_eq!(perm[12], from_hex("0x35a14520"));
    assert_eq!(perm[13], from_hex("0x2ba6a3c5"));
    assert_eq!(perm[14], from_hex("0x279d47ec"));
    assert_eq!(perm[15], from_hex("0x55014e81"));
    assert_eq!(perm[16], from_hex("0x5953a67f"));
    assert_eq!(perm[17], from_hex("0x2f403111"));
    assert_eq!(perm[18], from_hex("0x6b8828ff"));
    assert_eq!(perm[19], from_hex("0x1801301f"));
    assert_eq!(perm[20], from_hex("0x2749207a"));
    assert_eq!(perm[21], from_hex("0x3dc9cf21"));
    assert_eq!(perm[22], from_hex("0x3c985ba2"));
    assert_eq!(perm[23], from_hex("0x57a99864"));
}

#[test]
fn permutation_matches_reference_implementation() {
    let reference = ArkPoseidon2::new(&POSEIDON2_BABYBEAR_16_PARAMS);
    let ours = Poseidon2::new(&babybear_16_params());
    let input: Vec<ArkBabyBear> = (0..16u64).map(|i| ArkBabyBear::from(i * 7 + 3)).collect();
    let expected: Vec<FpBabyBear> = reference.permutation(&input).iter().map(to_lib).collect();
    let got = ours.permutation(&input.iter().map(to_lib).collect::<Vec<_>>());
    assert_eq!(got, expected);
}

#[test]
fn get_t_reports_width() {
    assert_eq!(Poseidon2::new(&babybear_16_params()).get_t(), 16);
    assert_eq!(Poseidon2::new(&babybear_24_params()).get_t(), 24);
}

#[test]
fn hash_is_32_bytes_of_first_four_state_words() {
    let h = Poseidon2::new(&babybear_16_params());
    let input = vec![FpBabyBear::from_u64(5), FpBabyBear::from_u64(9)];
    let out = h.hash(&input);
    assert_eq!(out.len(), 32);
    let mut state = vec![FpBabyBear::zero(); 16];
    state[0] = input[0];
    state[1] = input[1];
    let perm = h.permutation(&state);
    for i in 0..4 {
        assert_eq!(&out[i * 8..i * 8 + 8], perm[i].to_bytes_le().as_slice());
    }
}

#[test]
fn hash_ignores_inputs_beyond_width() {
    let h = Poseidon2::new(&babybear_16_params());
    let short: Vec<FpBabyBear> = (0..16u64).map(FpBabyBear::from_u64).collect();
    let mut long = short.clone();
    long.push(FpBabyBear::from_u64(99));
    assert_eq!(h.hash(&short), h.hash(&long));
}

#[test]
fn hash_pads_with_zeros() {
    let h = Poseidon2::new(&babybear_16_params());
    let xs: Vec<FpBabyBear> = (1..6u64).map(FpBabyBear::from_u64).collect();
    let mut padded = xs.clone();
    padded.push(FpBabyBear::zero());
    assert_eq!(h.hash(&xs), h.hash(&padded));
    padded.pop();
    padded.push(FpBabyBear::one());
    assert_ne!(h.hash(&xs), h.hash(&padded));
}

#[test]
fn parameter_check() {
    assert!(babybear_16_params().is_well_formed());
    assert!(babybear_24_params().is_well_formed());
    let bad_width = Poseidon2Params::new(5, 7, 8, 13, &[], &[], &[]);
    assert!(!bad_width.is_well_formed());
    let missing_constants = Poseidon2Params::new(16, 7, 8, 13, &[], &[], &[]);
    assert!(!missing_constants.is_well_formed());
}

#[test]
fn babybear_diagonals_are_the_instance_constants() {
    let d16: Vec<FpBabyBear> = MAT_DIAG16_M_1.iter().map(to_lib).collect();
    let d24: Vec<FpBabyBear> = MAT_DIAG24_M_1.iter().map(to_lib).collect();
    assert_eq!(babybear_diag16_elements(), d16);
    assert_eq!(babybear_diag24_elements(), d24);
    assert_eq!(babybear_16_params().mat_internal_diag_m_1, d16);
    assert_eq!(babybear_24_params().mat_internal_diag_m_1, d24);
}
