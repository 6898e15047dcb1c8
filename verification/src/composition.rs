//! Combining the constraint evaluations into one composition polynomial's evaluations,
//! with powers of a challenge drawn from the trace commitment.
use crate::fft_laws::fsum;
use crate::field_babybear::{le_bytes_value, p, vals, FpBabyBear};
use crate::merkle_tree_fp::Hasher;
use crate::poly::coef;
use vstd::arithmetic::div_mod::*;
use vstd::arithmetic::mul::*;
use vstd::arithmetic::power::*;
use vstd::prelude::*;

verus! {

broadcast use FpBabyBear::lemma_val_range;

/// The combining challenge: the hash of the trace root, reduced into the field.
pub open spec fn challenge_spec<H: Hasher>(h: &H, trace_root: int) -> int {
    le_bytes_value(h.spec_hash(seq![trace_root])) as int % p()
}

/// Entry `i` of the combination of the first `m` constraint columns:
/// `sum_{k < m} alpha^(k+1) * evals[k][i]` (columns shorter than `i` count as zero).
pub open spec fn composition_spec(evals: Seq<Seq<int>>, alpha: int, m: nat, i: int) -> int {
    fsum(m, |k: int| pow(alpha, (k + 1) as nat) * coef(evals[k], i)) % p()
}

/// The values of each column.
pub open spec fn columns(evals: Seq<Vec<FpBabyBear>>) -> Seq<Seq<int>> {
    Seq::new(evals.len(), |k: int| vals(evals[k]@))
}

/// The challenge for combining the constraints, drawn from the trace commitment.
pub fn composition_challenge<H: Hasher>(hasher: &H, trace_root: FpBabyBear) -> (r: FpBabyBear)
    ensures
        r.val() == challenge_spec(hasher, trace_root.val()),
{
    let input: Vec<FpBabyBear> = vec![trace_root];
    proof {
        assert(vals(input@) =~= seq![trace_root.val()]);
    }
    let hash_bytes: Vec<u8> = hasher.hash(input.as_slice());
    FpBabyBear::from_le_bytes_mod_order(hash_bytes.as_slice())
}

/// The evaluations of the composition polynomial over `size` points: column k of
/// `constraint_evals` weighted by `base_alpha^(k+1)`, summed.
pub fn compose_constraints(
    constraint_evals: &[Vec<FpBabyBear>],
    base_alpha: FpBabyBear,
    size: usize,
) -> (r: Vec<FpBabyBear>)
    requires
        forall|k: int|
            0 <= k < constraint_evals@.len() ==> #[trigger] constraint_evals@[k]@.len() <= size,
    ensures
        r@.len() == size,
        forall|i: int|
            0 <= i < size ==> #[trigger] r@[i].val() == composition_spec(
                columns(constraint_evals@),
                base_alpha.val(),
                constraint_evals@.len() as nat,
                i,
            ),
{
    let ghost cols = columns(constraint_evals@);
    let ghost a = base_alpha.val();
    let mut composition: Vec<FpBabyBear> = Vec::new();
    let mut z: usize = 0;
    while z < size
        invariant
            z <= size,
            composition@.len() == z,
            forall|i: int| 0 <= i < z ==> #[trigger] composition@[i].val() == 0,
        decreases size - z,
    {
        composition.push(FpBabyBear::zero());
        z = z + 1;
    }
    proof {
        assert forall|i: int| 0 <= i < size implies #[trigger] composition@[i].val()
            == composition_spec(cols, a, 0, i) by {
            lemma_small_mod(0, p() as nat);
        }
    }
    let mut current_alpha: FpBabyBear = FpBabyBear::one();
    let mut k: usize = 0;
    proof {
        lemma_pow0(a);
    }
    while k < constraint_evals.len()
        invariant
            cols == columns(constraint_evals@),
            a == base_alpha.val(),
            forall|kk: int|
                0 <= kk < constraint_evals@.len() ==> #[trigger] constraint_evals@[kk]@.len()
                    <= size,
            k <= constraint_evals@.len(),
            current_alpha.val() == pow(a, k as nat) % p(),
            composition@.len() == size,
            forall|i: int|
                0 <= i < size ==> #[trigger] composition@[i].val() == composition_spec(
                    cols,
                    a,
                    k as nat,
                    i,
                ),
        decreases constraint_evals@.len() - k,
    {
        current_alpha = current_alpha.mul(base_alpha);
        proof {
            lemma_mul_mod_noop_left(pow(a, k as nat), a, p());
            lemma_pow_adds(a, k as nat, 1);
            lemma_pow1(a);
        }
        let column: &Vec<FpBabyBear> = &constraint_evals[k];
        let ghost before = composition@;
        let mut i: usize = 0;
        while i < column.len()
            invariant
                cols == columns(constraint_evals@),
                a == base_alpha.val(),
                k < constraint_evals@.len(),
                *column == constraint_evals@[k as int],
                column@.len() <= size,
                current_alpha.val() == pow(a, (k + 1) as nat) % p(),
                composition@.len() == size,
                before.len() == size,
                forall|j: int|
                    0 <= j < size ==> #[trigger] before[j].val() == composition_spec(
                        cols,
                        a,
                        k as nat,
                        j,
                    ),
                i <= column@.len(),
                forall|j: int|
                    0 <= j < size ==> #[trigger] composition@[j].val() == if j < i {
                        (before[j].val() + (current_alpha.val() * column@[j].val()) % p()) % p()
                    } else {
                        before[j].val()
                    },
            decreases column@.len() - i,
        {
            let updated: FpBabyBear = composition[i].add(current_alpha.mul(column[i]));
            composition.set(i, updated);
            i = i + 1;
        }
        proof {
            assert forall|j: int| 0 <= j < size implies #[trigger] composition@[j].val()
                == composition_spec(cols, a, (k + 1) as nat, j) by {
                let f = |kk: int| pow(a, (kk + 1) as nat) * coef(cols[kk], j);
                let prev = fsum(k as nat, f);
                assert(fsum((k + 1) as nat, f) == prev + f(k as int));
                assert(cols[k as int] == vals(column@));
                let c = coef(cols[k as int], j);
                let w = pow(a, (k + 1) as nat);
                lemma_add_mod_noop(prev, w * c, p());
                lemma_mod_twice(prev, p());
                if j < column@.len() {
                    assert(c == column@[j].val());
                    lemma_mul_mod_noop_left(w, c, p());
                    lemma_mod_twice(w * c, p());
                    lemma_add_mod_noop(prev % p(), (w * c) % p(), p());
                    lemma_mod_twice(prev, p());
                } else {
                    assert(c == 0);
                    assert(w * 0 == 0);
                    lemma_small_mod(0, p() as nat);
                }
            }
        }
        k = k + 1;
    }
    composition
}

} // verus!
