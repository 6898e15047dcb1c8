//! Multiplicative evaluation domains (cosets of two-power subgroups) and the pair of
//! domains a STARK works over.
use crate::error::StarkError;
use crate::fft::exact_log2;
use crate::field_babybear::{is_invertible, p, root_of_unity_spec, FpBabyBear, GENERATOR};
use crate::merkle_tree_fp::next_pow2_spec;
use vstd::arithmetic::power::*;
use vstd::arithmetic::power2::*;
use vstd::prelude::*;

verus! {

broadcast use FpBabyBear::lemma_val_range;

/// The coset `offset * <group_gen>` of the subgroup of order `size = 2^log_size`.
#[derive(Debug, Clone, Copy)]
pub struct EvaluationDomain {
    pub size: usize,
    pub log_size: u32,
    pub group_gen: FpBabyBear,
    pub offset: FpBabyBear,
}

impl EvaluationDomain {
    /// A domain for `num_coeffs` coefficients: the subgroup of the next power of two.
    pub open spec fn is_subgroup_for(self, num_coeffs: nat) -> bool {
        &&& self.size == next_pow2_spec(num_coeffs)
        &&& self.size == pow2(self.log_size as nat)
        &&& self.log_size <= 27
        &&& self.group_gen.val() == root_of_unity_spec(self.log_size as nat)
    }

    /// The subgroup of order `num_coeffs` rounded up to a power of two; `None` when that
    /// order exceeds 2^27.
    pub fn new(num_coeffs: usize) -> (r: Option<Self>)
        ensures
            num_coeffs > 0x800_0000 <==> r is None,
            r matches Some(d) ==> d.is_subgroup_for(num_coeffs as nat) && d.offset.val() == 1,
    {
        if num_coeffs > 0x800_0000 {
            return None;
        }
        let mut size: usize = 1;
        let mut k: u32 = 0;
        proof {
            lemma2_to64();
        }
        while size < num_coeffs
            invariant
                k <= 27,
                size == pow2(k as nat),
                num_coeffs <= 0x800_0000,
                k > 0 ==> pow2((k - 1) as nat) < num_coeffs,
            decreases 27 - k,
        {
            proof {
                lemma2_to64();
                if k == 27 {
                    assert(false);
                }
                lemma_pow2_unfold((k + 1) as nat);
            }
            size = size * 2;
            k = k + 1;
        }
        proof {
            crate::merkle_tree_fp::lemma_next_pow2(num_coeffs as nat, size as nat, k as nat);
            assert(pow2(k as nat) == size as u64);
        }
        let group_gen: FpBabyBear = match FpBabyBear::get_root_of_unity(size as u64) {
            Some(g) => g,
            None => {
                return None;
            },
        };
        Some(EvaluationDomain { size, log_size: k, group_gen, offset: FpBabyBear::one() })
    }

    /// The coset of that subgroup by `offset`; `None` also when `offset` has no inverse.
    pub fn new_coset(num_coeffs: usize, offset: FpBabyBear) -> (r: Option<Self>)
        ensures
            (num_coeffs > 0x800_0000 || !is_invertible(offset.val())) <==> r is None,
            r matches Some(d) ==> d.is_subgroup_for(num_coeffs as nat) && d.offset == offset,
    {
        let d: EvaluationDomain = match EvaluationDomain::new(num_coeffs) {
            Some(d) => d,
            None => {
                return None;
            },
        };
        match offset.inverse() {
            Some(_) => {},
            None => {
                return None;
            },
        }
        Some(EvaluationDomain { offset, ..d })
    }

    pub fn size(&self) -> (r: usize)
        ensures
            r == self.size,
    {
        self.size
    }

    pub fn group_gen(&self) -> (r: FpBabyBear)
        ensures
            r == self.group_gen,
    {
        self.group_gen
    }

    /// The `i`-th element, `offset * group_gen^i`.
    pub fn element(&self, i: usize) -> (r: FpBabyBear)
        ensures
            r.val() == (pow(self.group_gen.val(), i as nat) * self.offset.val()) % p(),
    {
        let g: FpBabyBear = self.group_gen.pow(i as u64);
        let result: FpBabyBear = if !self.offset.is_one() {
            g.mul(self.offset)
        } else {
            proof {
                vstd::arithmetic::div_mod::lemma_mod_twice(pow(self.group_gen.val(), i as nat), p());
            }
            g
        };
        proof {
            vstd::arithmetic::div_mod::lemma_mul_mod_noop_left(
                pow(self.group_gen.val(), i as nat),
                self.offset.val(),
                p(),
            );
        }
        result
    }

    /// All elements in order: `offset * group_gen^i` for `i < size`.
    pub fn elements(&self) -> (r: Vec<FpBabyBear>)
        ensures
            r@.len() == self.size,
            forall|i: int|
                0 <= i < self.size ==> #[trigger] r@[i].val() == (pow(self.group_gen.val(), i as nat)
                    * self.offset.val()) % p(),
    {
        let mut out: Vec<FpBabyBear> = Vec::new();
        let mut cur: FpBabyBear = self.offset;
        let mut i: usize = 0;
        proof {
            vstd::arithmetic::power::lemma_pow0(self.group_gen.val());
            vstd::arithmetic::div_mod::lemma_small_mod(self.offset.val() as nat, p() as nat);
        }
        while i < self.size
            invariant
                i <= self.size,
                out@.len() == i,
                cur.val() == (pow(self.group_gen.val(), i as nat) * self.offset.val()) % p(),
                forall|j: int|
                    0 <= j < i ==> #[trigger] out@[j].val() == (pow(self.group_gen.val(), j as nat)
                        * self.offset.val()) % p(),
            decreases self.size - i,
        {
            out.push(cur);
            let ghost c = cur.val();
            cur = cur.mul(self.group_gen);
            proof {
                let g = self.group_gen.val();
                let pw = pow(g, i as nat);
                vstd::arithmetic::div_mod::lemma_mul_mod_noop_left(pw * self.offset.val(), g, p());
                vstd::arithmetic::power::lemma_pow_adds(g, i as nat, 1);
                vstd::arithmetic::power::lemma_pow1(g);
                assert(pw * self.offset.val() * g == pw * g * self.offset.val()) by (nonlinear_arith);
            }
            i = i + 1;
        }
        out
    }
}

/// The trace domain and its low-degree-extension coset.
#[derive(Debug, Clone, Copy)]
pub struct StarkDomain {
    pub trace_domain: EvaluationDomain,
    pub lde_domain: EvaluationDomain,
    pub blowup_factor: usize,
}

impl StarkDomain {
    /// The subgroup for `trace_len` and the coset by the field generator for
    /// `trace_len * blowup_factor`. Fails when the blowup factor is no power of two or a
    /// domain exceeds 2^27 elements.
    pub fn new(trace_len: usize, blowup_factor: usize) -> (r: Result<Self, StarkError>)
        requires
            (exists|k: nat| pow2(k) == blowup_factor) && trace_len <= 0x800_0000 ==> trace_len
                * blowup_factor <= usize::MAX,
        ensures
            !(exists|k: nat| pow2(k) == blowup_factor) ==> r == Err::<StarkDomain, StarkError>(
                StarkError::BlowupNotPowerOfTwo,
            ),
            (exists|k: nat| pow2(k) == blowup_factor) && (trace_len > 0x800_0000 || trace_len
                * blowup_factor > 0x800_0000) ==> r == Err::<StarkDomain, StarkError>(
                StarkError::DomainTooLarge,
            ),
            (exists|k: nat| pow2(k) == blowup_factor) && trace_len <= 0x800_0000 && trace_len
                * blowup_factor <= 0x800_0000 ==> (r matches Ok(d) && d.trace_domain.is_subgroup_for(
                trace_len as nat,
            ) && d.trace_domain.offset.val() == 1 && d.lde_domain.is_subgroup_for(
                (trace_len * blowup_factor) as nat,
            ) && d.lde_domain.offset.val() == GENERATOR && d.blowup_factor == blowup_factor),
    {
        match exact_log2(blowup_factor as u64) {
            Some(_) => {},
            None => {
                return Err(StarkError::BlowupNotPowerOfTwo);
            },
        }
        let trace_domain: EvaluationDomain = match EvaluationDomain::new(trace_len) {
            Some(d) => d,
            None => {
                return Err(StarkError::DomainTooLarge);
            },
        };
        let lde_len: usize = trace_len * blowup_factor;
        let gen: FpBabyBear = FpBabyBear::from_u64(GENERATOR);
        proof {
            vstd::arithmetic::div_mod::lemma_small_mod(GENERATOR as nat, p() as nat);
            lemma_generator_invertible();
        }
        let lde_domain: EvaluationDomain = match EvaluationDomain::new_coset(lde_len, gen) {
            Some(d) => d,
            None => {
                return Err(StarkError::DomainTooLarge);
            },
        };
        Ok(StarkDomain { trace_domain, lde_domain, blowup_factor })
    }

    /// The generator of the trace subgroup.
    pub fn trace_generator(&self) -> (r: FpBabyBear)
        ensures
            r == self.trace_domain.group_gen,
    {
        self.trace_domain.group_gen()
    }

    /// The generator of the subgroup underlying the extension coset.
    pub fn lde_generator(&self) -> (r: FpBabyBear)
        ensures
            r == self.lde_domain.group_gen,
    {
        self.lde_domain.group_gen()
    }
}

/// The field generator 31 has an inverse.
proof fn lemma_generator_invertible()
    ensures
        is_invertible(GENERATOR as int),
{
    let x: int = 64944062;
    assert(31 * x == 2013265922);
    vstd::arithmetic::div_mod::lemma_fundamental_div_mod_converse(2013265922, p(), 1, 1);
    assert((31 * x) % p() == 1);
}

} // verus!
