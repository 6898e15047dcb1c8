use std::sync::Arc;
use tiny_zk_stark::air::{Air, FibonacciAir};
use tiny_zk_stark::composition::{composition_challenge, compose_constraints};
use tiny_zk_stark::domain::StarkDomain;
use tiny_zk_stark::error::StarkError;
use tiny_zk_stark::fft::{intt, ntt};
use tiny_zk_stark::field_babybear::FpBabyBear;
use tiny_zk_stark::fri::{fri_prove, fri_verify, FriCommitment, FriProof};
use tiny_zk_stark::merkle_tree_fp::{Hasher, MerkleProof, MerkleTree};
use tiny_zk_stark::poly::{eval, poly_mul, poly_sub, Poly};
use tiny_zk_stark::poseidon2::{Poseidon2, Poseidon2Params};
use zkhash::ark_ff::PrimeField;
use zkhash::fields::babybear::FpBabyBear as ArkBabyBear;
use zkhash::poseidon2::poseidon2_instance_babybear::{MAT_DIAG16_M_1, MAT_INTERNAL16, RC16};

const P: u64 = 2013265921;

fn f(x: u64) -> FpBabyBear {
    FpBabyBear::from_u64(x)
}

fn fs(xs: &[u64]) -> Vec<FpBabyBear> {
    xs.iter().map(|&x| f(x)).collect()
}

fn to_lib(x: &ArkBabyBear) -> FpBabyBear {
    FpBabyBear::from_u64(x.into_bigint().0[0])
}

fn hasher() -> Poseidon2 {
    let rows = |rs: &[Vec<ArkBabyBear>]| -> Vec<Vec<FpBabyBear>> {
        rs.iter().map(|r| r.iter().map(to_lib).collect()).collect()
    };
    let diag: Vec<FpBabyBear> = MAT_DIAG16_M_1.iter().map(to_lib).collect();
    let params = Arc::new(Poseidon2Params::new(
        16,
        7,
        8,
        13,
        &diag,
        &rows(&MAT_INTERNAL16),
        &rows(&RC16),
    ));
    Poseidon2::new(&params)
}

fn hash_pair(h: &Poseidon2, a: FpBabyBear, b: FpBabyBear) -> FpBabyBear {
    FpBabyBear::from_le_bytes_mod_order(&h.hash(&[a, b]))
}

/// The trace polynomial and its extension for a Fibonacci trace.
fn fibonacci_setup(trace_len: usize, blowup: usize, result: u64) -> (FibonacciAir, StarkDomain, Poly, Poly) {
    let air = FibonacciAir::new(trace_len, f(result));
    let domain = StarkDomain::new(trace_len, blowup).unwrap();
    let trace = air.get_execution_trace().unwrap();
    let mut coeffs = trace[0].clone();
    intt(&mut coeffs).unwrap();
    let mut lde = coeffs.clone();
    lde.resize(domain.lde_domain.size(), FpBabyBear::zero());
    ntt(&mut lde).unwrap();
    (air, domain, coeffs, lde)
}

// ---------------------------------------------------------------- Merkle trees

#[test]
fn merkle_root_hashes_pairs_upwards() {
    let h = hasher();
    let leaves = fs(&[1, 2, 3, 4]);
    let tree = MerkleTree::new(&h, &leaves).unwrap();
    let expected = hash_pair(&h, hash_pair(&h, leaves[0], leaves[1]), hash_pair(&h, leaves[2], leaves[3]));
    assert_eq!(tree.root().unwrap(), expected);
}

#[test]
fn merkle_pads_with_zeros() {
    let h = hasher();
    let a = MerkleTree::new(&h, &fs(&[1, 2, 3])).unwrap();
    let b = MerkleTree::new(&h, &fs(&[1, 2, 3, 0])).unwrap();
    assert_eq!(a.root().unwrap(), b.root().unwrap());
    let empty = MerkleTree::new(&h, &[]).unwrap();
    assert_eq!(empty.root().unwrap(), FpBabyBear::zero());
    let single = MerkleTree::new(&h, &fs(&[7])).unwrap();
    assert_eq!(single.root().unwrap(), f(7));
}

#[test]
fn merkle_proofs_verify() {
    let h = hasher();
    let leaves = fs(&[10, 20, 30, 40, 50, 60, 70, 80]);
    let tree = MerkleTree::new(&h, &leaves).unwrap();
    let root = tree.root().unwrap();
    for (i, leaf) in leaves.iter().enumerate() {
        let proof = tree.prove(i).unwrap();
        assert_eq!(proof.siblings.len(), 3);
        assert_eq!(MerkleTree::verify(&h, &root, leaf, i, &proof), Ok(true));
        assert_eq!(MerkleTree::verify(&h, &root, &f(999), i, &proof), Ok(false));
    }
    let proof = tree.prove(2).unwrap();
    assert_eq!(MerkleTree::verify(&h, &root, &leaves[2], 3, &proof), Ok(false));
}

#[test]
fn merkle_prove_out_of_bounds() {
    let h = hasher();
    let tree = MerkleTree::new(&h, &fs(&[1, 2, 3, 4])).unwrap();
    assert_eq!(tree.prove(4).unwrap_err(), StarkError::LeafIndexOutOfBounds);
    let single = MerkleTree::new(&h, &fs(&[5])).unwrap();
    assert!(single.prove(3).unwrap().siblings.is_empty());
}

#[test]
fn merkle_verify_with_empty_path_compares_leaf() {
    let h = hasher();
    let proof = MerkleProof { siblings: vec![] };
    assert_eq!(MerkleTree::<Poseidon2>::verify(&h, &f(4), &f(4), 0, &proof), Ok(true));
    assert_eq!(MerkleTree::<Poseidon2>::verify(&h, &f(4), &f(5), 0, &proof), Ok(false));
}

// ---------------------------------------------------------------- AIR

#[test]
fn fibonacci_trace() {
    let air = FibonacciAir::new(16, f(987));
    assert_eq!(air.trace_len(), 16);
    assert_eq!(air.public_inputs(), fs(&[1, 987]));
    let trace = air.get_execution_trace().unwrap();
    assert_eq!(trace.len(), 1);
    assert_eq!(trace[0], fs(&[1, 1, 2, 3, 5, 8, 13, 21, 34, 55, 89, 144, 233, 377, 610, 987]));
}

#[test]
fn fibonacci_trace_result_mismatch() {
    let air = FibonacciAir::new(16, f(988));
    assert_eq!(air.get_execution_trace().unwrap_err(), StarkError::ResultMismatch);
    let short = FibonacciAir::new(2, f(1));
    assert_eq!(short.get_execution_trace().unwrap(), vec![fs(&[1, 1])]);
}

#[test]
fn constraint_polynomials_divide_exactly() {
    let (air, domain, coeffs, _) = fibonacci_setup(16, 4, 987);
    let polys = air.get_constraint_polynomials(&[coeffs.clone()], &domain).unwrap();
    assert_eq!(polys.len(), 3);
    // (P(x) - 1) = C0(x) * (x - 1)
    let lhs = poly_sub(&coeffs, &fs(&[1]));
    let rhs = poly_mul(&polys[0], &fs(&[P - 1, 1])).unwrap();
    assert_eq!(poly_sub(&lhs, &rhs), fs(&[0]));
    // (P(x) - result) = C1(x) * (x - g^15)
    let g = domain.trace_generator();
    let last = g.pow(15);
    let lhs = poly_sub(&coeffs, &fs(&[987]));
    let rhs = poly_mul(&polys[1], &vec![last.neg(), f(1)]).unwrap();
    assert_eq!(poly_sub(&lhs, &rhs), fs(&[0]));
    // the constraint polynomials agree with the point evaluations
    let z = f(123456);
    let evals = vec![eval(&coeffs, z), eval(&coeffs, z.mul(g)), eval(&coeffs, z.mul(g).mul(g))];
    let at_z = air.evaluate_constraints(z, &evals, &domain).unwrap();
    assert_eq!(eval(&polys[0], z), at_z[0]);
    assert_eq!(eval(&polys[1], z), at_z[1]);
    // the transition quotient times the zerofier gives the transition value
    let mut z_num = vec![FpBabyBear::zero(); 17];
    z_num[0] = f(P - 1);
    z_num[16] = f(1);
    let z_den = poly_mul(&vec![g.pow(15).neg(), f(1)], &vec![g.pow(14).neg(), f(1)]).unwrap();
    let (zerofier, rem) = tiny_zk_stark::poly::poly_div(&z_num, &z_den).unwrap();
    assert_eq!(rem, fs(&[0]));
    assert_eq!(eval(&polys[2], z).mul(eval(&zerofier, z)), at_z[2]);
}

#[test]
fn constraint_quotients_have_long_division_lengths() {
    let (air, domain, coeffs, _) = fibonacci_setup(16, 4, 987);
    assert_eq!(coeffs.len(), 16);
    let polys = air.get_constraint_polynomials(&[coeffs.clone()], &domain).unwrap();
    // 16 coefficients over a linear factor, and the transition over the zerofier of degree 14
    assert_eq!(polys[0].len(), 15);
    assert_eq!(polys[1].len(), 15);
    assert_eq!(polys[2].len(), 2);
}

#[test]
fn constraint_polynomials_reject_wrong_traces() {
    let (air, domain, coeffs, _) = fibonacci_setup(16, 4, 987);
    assert_eq!(
        air.get_constraint_polynomials(&[], &domain).unwrap_err(),
        StarkError::WrongTraceColumnCount
    );
    assert_eq!(
        air.get_constraint_polynomials(&[coeffs.clone(), coeffs.clone()], &domain).unwrap_err(),
        StarkError::WrongTraceColumnCount
    );
    let mut bad = coeffs.clone();
    bad[0] = bad[0].add(f(1));
    assert_eq!(
        air.get_constraint_polynomials(&[bad], &domain).unwrap_err(),
        StarkError::FirstBoundaryRemainder
    );
    let other = FibonacciAir::new(16, f(986));
    assert_eq!(
        other.get_constraint_polynomials(&[coeffs.clone()], &domain).unwrap_err(),
        StarkError::LastBoundaryRemainder
    );
}

#[test]
fn transition_remainder_for_a_non_fibonacci_trace() {
    // 1, 1, 2, 4, 8, ... doubles instead of adding; both boundaries still hold for result 2^14
    let domain = StarkDomain::new(16, 4).unwrap();
    let mut trace = vec![f(1), f(1)];
    for i in 2..16 {
        let prev: FpBabyBear = trace[i - 1];
        trace.push(prev.double());
    }
    let air = FibonacciAir::new(16, trace[15]);
    let mut coeffs = trace.clone();
    intt(&mut coeffs).unwrap();
    assert_eq!(
        air.get_constraint_polynomials(&[coeffs], &domain).unwrap_err(),
        StarkError::TransitionRemainder
    );
}

#[test]
fn zerofier_remainder_for_a_single_step() {
    let domain = StarkDomain::new(16, 4).unwrap();
    let air = FibonacciAir::new(1, f(1));
    assert_eq!(
        air.get_constraint_polynomials(&[fs(&[1])], &domain).unwrap_err(),
        StarkError::ZerofierRemainder
    );
}

#[test]
fn point_evaluation_errors() {
    let domain = StarkDomain::new(16, 4).unwrap();
    let air = FibonacciAir::new(16, f(987));
    let g = domain.trace_generator();
    assert_eq!(
        air.evaluate_constraints(f(5), &[], &domain).unwrap_err(),
        StarkError::NotEnoughTraceEvaluations
    );
    assert_eq!(
        air.evaluate_constraints(f(1), &fs(&[1, 2, 3]), &domain).unwrap_err(),
        StarkError::PointIsFirstRow
    );
    assert_eq!(
        air.evaluate_constraints(g.pow(15), &fs(&[1, 2, 3]), &domain).unwrap_err(),
        StarkError::PointIsLastRow
    );
    assert_eq!(
        air.evaluate_constraints(f(5), &fs(&[1, 2]), &domain).unwrap_err(),
        StarkError::NotEnoughTraceEvaluations
    );
    let v = air.evaluate_constraints(f(5), &fs(&[3, 4, 10]), &domain).unwrap();
    // (3 - 1) / (5 - 1), then 10 - 4 - 3
    assert_eq!(v[0], f(2).mul(f(4).inverse().unwrap()));
    assert_eq!(v[2], f(3));
}

#[test]
fn the_largest_trace_length() {
    let domain = StarkDomain::new(16, 4).unwrap();
    let air = FibonacciAir::new(usize::MAX, f(987));
    let g = domain.trace_generator();
    // point evaluation works at any trace length
    let last = g.pow((usize::MAX - 1) as u64);
    let v = air.evaluate_constraints(f(5), &fs(&[3, 4, 10]), &domain).unwrap();
    assert_eq!(v[0], f(2).mul(f(4).inverse().unwrap()));
    assert_eq!(v[1], f(3).sub(f(987)).mul(f(5).sub(last).inverse().unwrap()));
    assert_eq!(v[2], f(3));
    // the checks before the zerofier still report their errors
    assert_eq!(
        air.get_constraint_polynomials(&[], &domain).unwrap_err(),
        StarkError::WrongTraceColumnCount
    );
    assert_eq!(
        air.get_constraint_polynomials(&[fs(&[5])], &domain).unwrap_err(),
        StarkError::FirstBoundaryRemainder
    );
    assert_eq!(
        air.get_constraint_polynomials(&[fs(&[1])], &domain).unwrap_err(),
        StarkError::LastBoundaryRemainder
    );
}

#[test]
fn constraints_on_the_extension() {
    let (air, domain, coeffs, lde) = fibonacci_setup(16, 4, 987);
    assert!(air.can_evaluate_on_lde(&lde, &domain));
    assert!(!air.can_evaluate_on_lde(&lde[..10], &domain));
    let cols = air.evaluate_constraints_on_lde(&lde, &domain).unwrap();
    assert_eq!(cols.len(), 3);
    let xs = domain.lde_domain.elements();
    let w = domain.lde_generator();
    let last = domain.trace_generator().pow(15);
    for i in 0..xs.len() {
        // the extension holds the trace polynomial on the subgroup
        assert_eq!(lde[i], eval(&coeffs, w.pow(i as u64)));
        // the boundary quotients divide by the coset point
        let one = FpBabyBear::one();
        assert_eq!(cols[0][i], lde[i].sub(one).mul(xs[i].sub(one).inverse().unwrap()));
        assert_eq!(cols[1][i], lde[i].sub(f(987)).mul(xs[i].sub(last).inverse().unwrap()));
    }
    // the transition column at 0 reads the values 4 and 8 positions on
    let g = domain.trace_generator();
    let x0 = xs[0];
    let num = lde[8].sub(lde[4]).sub(lde[0]);
    let zden = x0.sub(g.pow(15)).mul(x0.sub(g.pow(14)));
    let znum = x0.pow(16).sub(FpBabyBear::one());
    assert_eq!(cols[2][0], num.mul(zden.mul(znum.inverse().unwrap())));
}

#[test]
fn constraints_on_the_coset_are_the_quotients() {
    let (air, domain, coeffs, _) = fibonacci_setup(16, 4, 987);
    let polys = air.get_constraint_polynomials(&[coeffs.clone()], &domain).unwrap();
    let xs = domain.lde_domain.elements();
    // the trace polynomial's values on the extension coset
    let coset_lde: Vec<FpBabyBear> = xs.iter().map(|&x| eval(&coeffs, x)).collect();
    let cols = air.evaluate_constraints_on_lde(&coset_lde, &domain).unwrap();
    for i in 0..xs.len() {
        for k in 0..3 {
            assert_eq!(cols[k][i], eval(&polys[k], xs[i]));
        }
    }
}

// ---------------------------------------------------------------- composition

#[test]
fn composition_weights_columns_by_powers() {
    let cols = vec![fs(&[1, 2]), fs(&[3, 4]), fs(&[5])];
    let out = compose_constraints(&cols, f(2), 2);
    // 2*1 + 4*3 + 8*5, 2*2 + 4*4
    assert_eq!(out, fs(&[54, 20]));
    assert_eq!(compose_constraints(&[], f(2), 3), fs(&[0, 0, 0]));
}

#[test]
fn composition_challenge_hashes_the_root() {
    let h = hasher();
    let root = f(77);
    let expected = FpBabyBear::from_le_bytes_mod_order(&h.hash(&[root]));
    assert_eq!(composition_challenge(&h, root), expected);
    assert_ne!(composition_challenge(&h, root), root);
}

// ---------------------------------------------------------------- FRI

fn sample_poly(n: u64) -> Vec<FpBabyBear> {
    (0..n).map(|i| f(i * i + 3)).collect()
}

#[test]
fn fri_accepts_honest_proofs() {
    let h = hasher();
    let domain = StarkDomain::new(8, 4).unwrap();
    let poly = sample_poly(32);
    let proof = fri_prove(poly, &domain, &h).unwrap();
    assert_eq!(proof.commitments.len(), 1);
    assert_eq!(proof.commitments[0].roots.len(), 5);
    assert_eq!(proof.commitments[0].final_poly.len(), 1);
    assert_eq!(proof.queries.len(), 3);
    for q in &proof.queries {
        assert_eq!(q.layer_proofs.len(), 5);
    }
    assert_eq!(fri_verify(&proof, 0, 32, 3, &h), Ok(true));
    assert_eq!(fri_verify(&proof, 1000, 32, 3, &h), Ok(true));
}

#[test]
fn fri_first_root_commits_to_the_values() {
    let h = hasher();
    let domain = StarkDomain::new(8, 4).unwrap();
    let poly = sample_poly(32);
    let tree = MerkleTree::new(&h, &poly).unwrap();
    let proof = fri_prove(poly, &domain, &h).unwrap();
    assert_eq!(proof.commitments[0].roots[0], tree.root().unwrap());
}

#[test]
fn fri_single_value() {
    let h = hasher();
    let domain = StarkDomain::new(1, 1).unwrap();
    let proof = fri_prove(fs(&[42]), &domain, &h).unwrap();
    assert!(proof.commitments[0].roots.is_empty());
    assert_eq!(proof.commitments[0].final_poly, fs(&[42]));
    assert_eq!(fri_verify(&proof, 0, 1, 3, &h), Ok(true));
}

#[test]
fn fri_rejects_lengths_that_are_not_powers_of_two() {
    let h = hasher();
    let domain = StarkDomain::new(8, 4).unwrap();
    assert_eq!(fri_prove(sample_poly(24), &domain, &h).unwrap_err(), StarkError::FriLengthNotPowerOfTwo);
    assert_eq!(fri_prove(vec![], &domain, &h).unwrap_err(), StarkError::FriLengthNotPowerOfTwo);
}

#[test]
fn fri_rejects_tampered_openings() {
    let h = hasher();
    let domain = StarkDomain::new(8, 4).unwrap();
    let mut proof = fri_prove(sample_poly(32), &domain, &h).unwrap();
    let (_, (v, _), _) = &mut proof.queries[0].layer_proofs[1];
    *v = v.add(f(1));
    assert_eq!(fri_verify(&proof, 0, 32, 3, &h), Err(StarkError::InvalidMerkleProof));
}

#[test]
fn fri_rejects_a_tampered_final_polynomial() {
    let h = hasher();
    let domain = StarkDomain::new(1, 1).unwrap();
    let mut proof = fri_prove(fs(&[42]), &domain, &h).unwrap();
    proof.commitments[0].final_poly = fs(&[0, 1]);
    assert_eq!(fri_verify(&proof, 0, 1, 3, &h), Err(StarkError::FinalDegreeTooHigh));
    assert_eq!(fri_verify(&proof, 2, 1, 3, &h), Ok(true));
}

#[test]
fn fri_structural_errors() {
    let h = hasher();
    let empty = FriProof { commitments: vec![], queries: vec![] };
    assert_eq!(fri_verify(&empty, 0, 32, 3, &h), Err(StarkError::MissingCommitment));
    let domain = StarkDomain::new(8, 4).unwrap();
    let proof = fri_prove(sample_poly(32), &domain, &h).unwrap();
    assert_eq!(fri_verify(&proof, 0, 32, 2, &h), Err(StarkError::MissingQueryIndex));
    let stripped = FriProof {
        commitments: vec![FriCommitment {
            roots: proof.commitments[0].roots[..2].to_vec(),
            final_poly: proof.commitments[0].final_poly.clone(),
        }],
        queries: proof.queries,
    };
    let r = fri_verify(&stripped, 0, 32, 3, &h);
    assert!(r == Err(StarkError::MissingRoot) || r == Err(StarkError::InvalidMerkleProof));
}

#[test]
fn fri_detects_inconsistent_folding() {
    let h = hasher();
    let domain = StarkDomain::new(8, 4).unwrap();
    let honest = fri_prove(sample_poly(32), &domain, &h).unwrap();
    // a proof for other values under the same positions fails the folding or Merkle checks
    let mut proof = fri_prove(sample_poly(32).iter().map(|x| x.double()).collect(), &domain, &h).unwrap();
    proof.commitments[0].roots[0] = honest.commitments[0].roots[0];
    assert!(fri_verify(&proof, 0, 32, 3, &h).is_err());
}

// ---------------------------------------------------------------- the whole pipeline

#[test]
fn fibonacci_stark_end_to_end() {
    let h = hasher();
    let (air, domain, _, lde) = fibonacci_setup(16, 4, 987);
    let trace_tree = MerkleTree::new(&h, &lde).unwrap();
    let trace_root = trace_tree.root().unwrap();
    assert!(air.can_evaluate_on_lde(&lde, &domain));
    let cols = air.evaluate_constraints_on_lde(&lde, &domain).unwrap();
    let alpha = composition_challenge(&h, trace_root);
    let composition = compose_constraints(&cols, alpha, domain.lde_domain.size());
    let proof = fri_prove(composition, &domain, &h).unwrap();
    assert_eq!(fri_verify(&proof, 16, domain.lde_domain.size(), 3, &h), Ok(true));
}
