//! Dense univariate polynomials over the BabyBear field, as coefficient vectors
//! (lowest degree first).
use crate::error::StarkError;
use crate::fft::{
    dft, intt, inv_pow2, inv_root_of_unity, is_small_pow2, lemma_pow2_injective,
    lemma_pow2_inverse, log2_spec, ntt,
};
use crate::fft_laws::fsum;
use crate::poly_laws::{
    lemma_conv_beyond, lemma_poly_value_add, lemma_poly_value_congr, lemma_poly_value_scale,
    lemma_remainder_zero_iff, lemma_value_times_linear,
};
use crate::field_babybear::{is_invertible, p, root_of_unity_spec, vals, FpBabyBear};
use vstd::arithmetic::div_mod::*;
use vstd::arithmetic::mul::*;
use vstd::arithmetic::power::*;
use vstd::arithmetic::power2::*;
use vstd::prelude::*;

verus! {

broadcast use FpBabyBear::lemma_val_range;

/// A polynomial, coefficient of x^i at index i.
pub type Poly = Vec<FpBabyBear>;

/// The coefficient of x^i in `s` (zero beyond its length).
pub open spec fn coef(s: Seq<int>, i: int) -> int {
    if 0 <= i < s.len() {
        s[i]
    } else {
        0
    }
}

/// The value of the polynomial with coefficients `s` at `t`, over the integers.
pub open spec fn poly_value(s: Seq<int>, t: int) -> int {
    fsum(s.len(), |i: int| s[i] * pow(t, i as nat))
}

/// `s` without its trailing zero coefficients, keeping at least one coefficient.
pub open spec fn trim(s: Seq<int>) -> Seq<int>
    decreases s.len(),
{
    if s.len() > 1 && s.last() == 0 {
        trim(s.drop_last())
    } else {
        s
    }
}

/// The coefficientwise difference of `a` and `b` modulo p, without trailing zeros.
pub open spec fn poly_sub_spec(a: Seq<int>, b: Seq<int>) -> Seq<int> {
    trim(
        Seq::new(
            if a.len() >= b.len() {
                a.len()
            } else {
                b.len()
            },
            |i: int| (coef(a, i) - coef(b, i)) % p(),
        ),
    )
}

/// Coefficient i of `s` times `c^i`, modulo p: the polynomial `x -> s(c * x)`.
pub open spec fn shift_spec(s: Seq<int>, c: int) -> Seq<int> {
    Seq::new(s.len(), |i: int| (s[i] * pow(c, i as nat)) % p())
}

/// The coefficient of x^t in the product of `a` and `b`, over the integers.
pub open spec fn conv(a: Seq<int>, b: Seq<int>, t: int) -> int {
    fsum((t + 1) as nat, |i: int| coef(a, i) * coef(b, t - i))
}

/// Evaluates `poly` at `t`.
pub fn eval(poly: &[FpBabyBear], t: FpBabyBear) -> (r: FpBabyBear)
    ensures
        r.val() == poly_value(vals(poly@), t.val()) % p(),
{
    let n: usize = poly.len();
    let mut acc: FpBabyBear = FpBabyBear::zero();
    let mut tp: FpBabyBear = FpBabyBear::one();
    let mut i: usize = 0;
    let ghost s = vals(poly@);
    let ghost f = |i: int| s[i] * pow(t.val(), i as nat);
    proof {
        lemma_pow0(t.val());
        lemma_small_mod(1, p() as nat);
        lemma_small_mod(0, p() as nat);
    }
    while i < n
        invariant
            n == poly@.len(),
            s == vals(poly@),
            f == (|i: int| s[i] * pow(t.val(), i as nat)),
            i <= n,
            tp.val() == pow(t.val(), i as nat) % p(),
            acc.val() == fsum(i as nat, f) % p(),
        decreases n - i,
    {
        let term: FpBabyBear = poly[i].mul(tp);
        proof {
            lemma_mul_mod_noop_right(s[i as int], pow(t.val(), i as nat), p());
            lemma_add_mod_noop(fsum(i as nat, f), f(i as int), p());
            lemma_mod_twice(fsum(i as nat, f), p());
        }
        acc = acc.add(term);
        tp = tp.mul(t);
        proof {
            lemma_mul_mod_noop_left(pow(t.val(), i as nat), t.val(), p());
            lemma_pow_adds(t.val(), i as nat, 1);
            lemma_pow1(t.val());
            assert(fsum((i + 1) as nat, f) == fsum(i as nat, f) + f(i as int));
        }
        i = i + 1;
    }
    acc
}

/// The coefficientwise sum, as long as the longer operand.
pub fn poly_add(a: &[FpBabyBear], b: &[FpBabyBear]) -> (r: Poly)
    ensures
        r@.len() == if a@.len() >= b@.len() {
            a@.len()
        } else {
            b@.len()
        },
        forall|i: int|
            0 <= i < r@.len() ==> #[trigger] r@[i].val() == (coef(vals(a@), i) + coef(vals(b@), i))
                % p(),
{
    let max_len: usize = if a.len() >= b.len() {
        a.len()
    } else {
        b.len()
    };
    let mut result: Vec<FpBabyBear> = Vec::new();
    let mut i: usize = 0;
    while i < max_len
        invariant
            max_len == (if a@.len() >= b@.len() {
                a@.len()
            } else {
                b@.len()
            }),
            i <= max_len,
            result@.len() == i,
            forall|j: int|
                0 <= j < i ==> #[trigger] result@[j].val() == (coef(vals(a@), j) + coef(
                    vals(b@),
                    j,
                )) % p(),
        decreases max_len - i,
    {
        let val_a: FpBabyBear = if i < a.len() {
            a[i]
        } else {
            FpBabyBear::zero()
        };
        let val_b: FpBabyBear = if i < b.len() {
            b[i]
        } else {
            FpBabyBear::zero()
        };
        result.push(val_a.add(val_b));
        i = i + 1;
    }
    result
}

/// Removes trailing zero coefficients, keeping at least one.
fn trim_in_place(r: &mut Vec<FpBabyBear>)
    ensures
        vals(final(r)@) == trim(vals(old(r)@)),
{
    while r.len() > 1 && r[r.len() - 1].is_zero()
        invariant
            trim(vals(r@)) == trim(vals(old(r)@)),
        decreases r@.len(),
    {
        proof {
            let s = vals(r@);
            assert(s.drop_last() =~= vals(r@.drop_last()));
        }
        r.pop();
    }
    proof {
        let s = vals(r@);
        if s.len() > 1 {
            assert(s.last() != 0);
        }
    }
}

/// The coefficientwise difference, with trailing zero coefficients removed
/// (at least one coefficient stays when an operand is nonempty).
pub fn poly_sub(a: &[FpBabyBear], b: &[FpBabyBear]) -> (r: Poly)
    ensures
        vals(r@) == poly_sub_spec(vals(a@), vals(b@)),
{
    let max_len: usize = if a.len() >= b.len() {
        a.len()
    } else {
        b.len()
    };
    let mut result: Vec<FpBabyBear> = Vec::new();
    let mut i: usize = 0;
    let ghost raw = Seq::new(max_len as nat, |i: int| (coef(vals(a@), i) - coef(vals(b@), i)) % p());
    while i < max_len
        invariant
            max_len == (if a@.len() >= b@.len() {
                a@.len()
            } else {
                b@.len()
            }),
            raw == Seq::new(max_len as nat, |i: int| (coef(vals(a@), i) - coef(vals(b@), i)) % p()),
            i <= max_len,
            result@.len() == i,
            forall|j: int| 0 <= j < i ==> #[trigger] result@[j].val() == raw[j],
        decreases max_len - i,
    {
        let val_a: FpBabyBear = if i < a.len() {
            a[i]
        } else {
            FpBabyBear::zero()
        };
        let val_b: FpBabyBear = if i < b.len() {
            b[i]
        } else {
            FpBabyBear::zero()
        };
        result.push(val_a.sub(val_b));
        i = i + 1;
    }
    proof {
        assert(vals(result@) =~= raw);
    }
    trim_in_place(&mut result);
    result
}

/// Multiplies coefficient i by `shift^i`: the polynomial `x -> p(shift * x)`.
pub fn poly_shift(p: &[FpBabyBear], shift: FpBabyBear) -> (r: Poly)
    ensures
        r@.len() == p@.len(),
        forall|i: int|
            0 <= i < r@.len() ==> #[trigger] r@[i].val() == (p@[i].val() * pow(shift.val(), i as nat))
                % crate::field_babybear::p(),
        vals(r@) == shift_spec(vals(p@), shift.val()),
{
    let mut current_shift_power: FpBabyBear = FpBabyBear::one();
    let mut result: Vec<FpBabyBear> = Vec::new();
    let mut i: usize = 0;
    proof {
        lemma_pow0(shift.val());
        lemma_small_mod(1, crate::field_babybear::p() as nat);
    }
    while i < p.len()
        invariant
            i <= p@.len(),
            result@.len() == i,
            current_shift_power.val() == pow(shift.val(), i as nat) % crate::field_babybear::p(),
            forall|j: int|
                0 <= j < i ==> #[trigger] result@[j].val() == (p@[j].val() * pow(
                    shift.val(),
                    j as nat,
                )) % crate::field_babybear::p(),
        decreases p@.len() - i,
    {
        let res: FpBabyBear = p[i].mul(current_shift_power);
        proof {
            lemma_mul_mod_noop_right(
                p@[i as int].val(),
                pow(shift.val(), i as nat),
                crate::field_babybear::p(),
            );
        }
        result.push(res);
        current_shift_power = current_shift_power.mul(shift);
        proof {
            lemma_mul_mod_noop_left(
                pow(shift.val(), i as nat),
                shift.val(),
                crate::field_babybear::p(),
            );
            lemma_pow_adds(shift.val(), i as nat, 1);
            lemma_pow1(shift.val());
        }
        i = i + 1;
    }
    proof {
        assert(vals(result@) =~= shift_spec(vals(p@), shift.val()));
    }
    result
}

/// Multiplies every coefficient by `scalar`.
pub fn poly_scale(p: &[FpBabyBear], scalar: FpBabyBear) -> (r: Poly)
    ensures
        r@.len() == p@.len(),
        forall|i: int|
            0 <= i < r@.len() ==> #[trigger] r@[i].val() == (p@[i].val() * scalar.val())
                % crate::field_babybear::p(),
{
    let mut result: Vec<FpBabyBear> = Vec::new();
    let mut i: usize = 0;
    while i < p.len()
        invariant
            i <= p@.len(),
            result@.len() == i,
            forall|j: int|
                0 <= j < i ==> #[trigger] result@[j].val() == (p@[j].val() * scalar.val())
                    % crate::field_babybear::p(),
        decreases p@.len() - i,
    {
        result.push(p[i].mul(scalar));
        i = i + 1;
    }
    result
}

/// A copy of the coefficients.
pub fn copy_poly(a: &[FpBabyBear]) -> (r: Poly)
    ensures
        r@ == a@,
{
    let mut r: Vec<FpBabyBear> = Vec::new();
    let mut i: usize = 0;
    while i < a.len()
        invariant
            i <= a@.len(),
            r@ == a@.subrange(0, i as int),
        decreases a@.len() - i,
    {
        r.push(a[i]);
        i = i + 1;
        proof {
            assert(r@ =~= a@.subrange(0, i as int));
        }
    }
    proof {
        assert(r@ =~= a@);
    }
    r
}

/// Every coefficient of `s` is zero (also when `s` is empty).
pub open spec fn all_zero(s: Seq<int>) -> bool {
    forall|i: int| 0 <= i < s.len() ==> #[trigger] s[i] == 0
}

/// Whether every coefficient of `s` is zero.
pub fn is_zero_poly(s: &[FpBabyBear]) -> (r: bool)
    ensures
        r == all_zero(vals(s@)),
{
    let mut k: usize = 0;
    while k < s.len()
        invariant
            k <= s@.len(),
            forall|i: int| 0 <= i < k ==> #[trigger] vals(s@)[i] == 0,
        decreases s@.len() - k,
    {
        if !s[k].is_zero() {
            proof {
                assert(vals(s@)[k as int] != 0);
            }
            return false;
        }
        k = k + 1;
    }
    true
}

/// The linear polynomial `x - root`.
pub open spec fn linear_factor(root: int) -> Seq<int> {
    seq![(-root) % p(), 1]
}

/// `q * b` and `a` are the same polynomial over the field.
pub open spec fn is_product(q: Seq<int>, b: Seq<int>, a: Seq<int>) -> bool {
    forall|t: int| t >= 0 ==> #[trigger] conv(q, b, t) % p() == coef(a, t) % p()
}

/// `b` divides `a` over the field.
pub open spec fn divides(b: Seq<int>, a: Seq<int>) -> bool {
    exists|q: Seq<int>| #[trigger] is_product(q, b, a)
}

proof fn lemma_fsum_point_update(n: nat, f: spec_fn(int) -> int, g: spec_fn(int) -> int, i: int, delta: int)
    requires
        forall|k: int| 0 <= k < n && k != i ==> #[trigger] g(k) == f(k),
        0 <= i < n ==> g(i) == f(i) + delta,
    ensures
        fsum(n, g) == fsum(n, f) + (if 0 <= i < n {
            delta
        } else {
            0
        }),
    decreases n,
{
    if n > 0 {
        lemma_fsum_point_update((n - 1) as nat, f, g, i, delta);
    }
}

/// Setting a zero coefficient of `q` to `c` adds `c * b` shifted by `i` to the product.
proof fn lemma_conv_update(q: Seq<int>, b: Seq<int>, i: int, c: int, t: int)
    requires
        0 <= i < q.len(),
        q[i] == 0,
        t >= 0,
    ensures
        conv(q.update(i, c), b, t) == conv(q, b, t) + c * coef(b, t - i),
{
    let q2 = q.update(i, c);
    let f = |k: int| coef(q, k) * coef(b, t - k);
    let g = |k: int| coef(q2, k) * coef(b, t - k);
    assert forall|k: int| 0 <= k < t + 1 && k != i implies #[trigger] g(k) == f(k) by {}
    lemma_fsum_point_update((t + 1) as nat, f, g, i, c * coef(b, t - i));
    if !(0 <= i < t + 1) {
        assert(coef(b, t - i) == 0);
    }
}

/// Long division: `a = q * b + rem` with `rem` shorter than `b`.
/// Fails on a zero divisor and on a divisor whose leading coefficient has no inverse.
pub fn poly_div(a: &[FpBabyBear], b: &[FpBabyBear]) -> (r: Result<(Poly, Poly), StarkError>)
    ensures
        all_zero(vals(b@)) ==> r == Err::<(Poly, Poly), StarkError>(StarkError::DivisionByZero),
        !all_zero(vals(b@)) && b@.len() <= a@.len() && !crate::field_babybear::is_invertible(
            b@.last().val(),
        ) ==> r == Err::<(Poly, Poly), StarkError>(StarkError::LeadingCoefficientNotInvertible),
        !all_zero(vals(b@)) && b@.len() > a@.len() ==> (r matches Ok((q, rem)) && q@.len() == 0
            && rem@ == a@),
        !all_zero(vals(b@)) && b@.len() <= a@.len() && crate::field_babybear::is_invertible(
            b@.last().val(),
        ) ==> (r matches Ok((q, rem)) && q@.len() == a@.len() - b@.len() + 1 && rem@.len()
            <= b@.len() - 1 && trim(vals(rem@)) == vals(rem@) && (b@.len() >= 2 ==> rem@.len()
            >= 1)),
        r matches Ok((q, rem)) ==> rem@.len() < b@.len() && forall|t: int|
            t >= 0 ==> (#[trigger] conv(vals(q@), vals(b@), t) + coef(vals(rem@), t)) % p() == coef(
                vals(a@),
                t,
            ),
        r matches Ok((q, rem)) ==> (all_zero(vals(rem@)) ==> is_product(
            vals(q@),
            vals(b@),
            vals(a@),
        )),
        r matches Ok((q, rem)) ==> (crate::field_babybear::is_invertible(b@.last().val())
            && divides(vals(b@), vals(a@)) ==> all_zero(vals(rem@))),
{
    if is_zero_poly(b) {
        return Err(StarkError::DivisionByZero);
    }
    if b.len() > a.len() {
        let rem: Vec<FpBabyBear> = copy_poly(a);
        let quotient: Vec<FpBabyBear> = Vec::new();
        proof {
            assert forall|t: int| 0 <= t < a@.len() implies (#[trigger] conv(
                vals(quotient@),
                vals(b@),
                t,
            ) + coef(vals(rem@), t)) % p() == vals(a@)[t] by {
                lemma_conv_beyond(vals(quotient@), vals(b@), t);
                lemma_small_mod(vals(a@)[t] as nat, p() as nat);
            }
            lemma_div_outcome(vals(quotient@), vals(rem@), vals(a@), vals(b@));
        }
        return Ok((quotient, rem));
    }
    let blen: usize = b.len();
    let alen: usize = a.len();
    let qlen: usize = alen - blen + 1;
    let lead_b: FpBabyBear = b[blen - 1];
    let lead_b_inv: FpBabyBear = match lead_b.inverse() {
        Some(x) => x,
        None => {
            return Err(StarkError::LeadingCoefficientNotInvertible);
        },
    };
    let mut quotient: Vec<FpBabyBear> = Vec::new();
    let mut z: usize = 0;
    while z < qlen
        invariant
            z <= qlen,
            quotient@.len() == z,
            forall|j: int| 0 <= j < z ==> #[trigger] quotient@[j].val() == 0,
        decreases qlen - z,
    {
        quotient.push(FpBabyBear::zero());
        z = z + 1;
    }
    let mut remainder: Vec<FpBabyBear> = copy_poly(a);
    let ghost av = vals(a@);
    let ghost bv = vals(b@);
    proof {
        assert forall|t: int| 0 <= t < alen implies (#[trigger] conv(vals(quotient@), bv, t) + coef(
            vals(remainder@),
            t,
        )) % p() == av[t] by {
            let f = |k: int| coef(vals(quotient@), k) * coef(bv, t - k);
            assert forall|k: int| 0 <= k < t + 1 implies #[trigger] f(k) == 0 by {
                if 0 <= k < quotient@.len() {
                    assert(vals(quotient@)[k] == quotient@[k].val());
                    assert(quotient@[k].val() == 0);
                }
                assert(coef(vals(quotient@), k) == 0);
                assert(0 * coef(bv, t - k) == 0);
            }
            crate::fft_laws::lemma_fsum_zeros((t + 1) as nat, f);
            lemma_small_mod(av[t] as nat, p() as nat);
        }
    }
    let mut i: usize = qlen;
    while i > 0
        invariant
            alen == a@.len(),
            blen == b@.len(),
            1 <= blen <= alen,
            qlen == alen - blen + 1,
            av == vals(a@),
            bv == vals(b@),
            (lead_b.val() * lead_b_inv.val()) % p() == 1,
            lead_b == b@[blen - 1],
            i <= qlen,
            quotient@.len() == qlen,
            remainder@.len() == i + blen - 1,
            forall|j: int| 0 <= j < i ==> #[trigger] quotient@[j].val() == 0,
            forall|t: int|
                0 <= t < alen ==> (#[trigger] conv(vals(quotient@), bv, t) + coef(
                    vals(remainder@),
                    t,
                )) % p() == av[t],
        decreases i,
    {
        i = i - 1;
        let top: usize = i + blen - 1;
        let coeff: FpBabyBear = remainder[top].mul(lead_b_inv);
        let ghost q_old = vals(quotient@);
        let ghost r_old = vals(remainder@);
        quotient.set(i, coeff);
        proof {
            assert forall|t: int| 0 <= t < r_old.len() implies 0 <= #[trigger] r_old[t] < p() by {
                assert(r_old[t] == remainder@[t].val());
            }
        }
        let mut j: usize = 0;
        while j < blen
            invariant
                blen == b@.len(),
                bv == vals(b@),
                remainder@.len() == r_old.len(),
                top == i + blen - 1,
                r_old.len() == top + 1,
                forall|t: int| 0 <= t < r_old.len() ==> 0 <= #[trigger] r_old[t] < p(),
                j <= blen,
                forall|t: int|
                    0 <= t < r_old.len() ==> #[trigger] vals(remainder@)[t] == if i <= t < i + j {
                        (r_old[t] - coeff.val() * bv[t - i]) % p()
                    } else {
                        r_old[t]
                    },
            decreases blen - j,
        {
            let sub: FpBabyBear = remainder[i + j].sub(coeff.mul(b[j]));
            proof {
                lemma_sub_mod_noop(r_old[i + j], coeff.val() * bv[j as int], p());
                lemma_mod_twice(r_old[i + j], p());
                lemma_small_mod(r_old[i + j] as nat, p() as nat);
            }
            let ghost r_before = remainder@;
            remainder.set(i + j, sub);
            proof {
                assert forall|t: int| 0 <= t < r_old.len() implies #[trigger] vals(remainder@)[t]
                    == if i <= t < i + j + 1 {
                    (r_old[t] - coeff.val() * bv[t - i]) % p()
                } else {
                    r_old[t]
                } by {
                    assert(vals(remainder@)[t] == remainder@[t].val());
                    assert(vals(r_before)[t] == r_before[t].val());
                    if t == i + j {
                        assert(vals(b@)[j as int] == b@[j as int].val());
                    }
                }
            }
            j = j + 1;
        }
        let ghost r_new = vals(remainder@);
        proof {
            // the top coefficient cancels
            let lead = bv[blen - 1];
            let c = coeff.val();
            let rt = r_old[top as int];
            assert(lead == lead_b.val());
            assert(c == (rt * lead_b_inv.val()) % p());
            lemma_mul_mod_noop_left(rt * lead_b_inv.val(), lead, p());
            assert(rt * lead_b_inv.val() * lead == rt * (lead * lead_b_inv.val())) by (
            nonlinear_arith);
            lemma_mul_mod_noop_right(rt, lead * lead_b_inv.val(), p());
            lemma_small_mod(rt as nat, p() as nat);
            assert((c * lead) % p() == rt);
            lemma_sub_mod_noop(rt, c * lead, p());
            assert(r_new[top as int] == 0) by {
                lemma_small_mod(0, p() as nat);
                assert((rt - c * lead) % p() == (rt % p() - (c * lead) % p()) % p());
            }
            // the invariant survives: q gains c at i, remainder loses c * b shifted by i
            assert forall|t: int| 0 <= t < alen implies (#[trigger] conv(
                vals(quotient@),
                bv,
                t,
            ) + coef(vals(remainder@).drop_last(), t)) % p() == av[t] by {
                assert(vals(quotient@) =~= q_old.update(i as int, c));
                lemma_conv_update(q_old, bv, i as int, c, t);
                let cv = conv(q_old, bv, t);
                let d = c * coef(bv, t - i);
                if t < top {
                    assert(coef(vals(remainder@).drop_last(), t) == r_new[t]);
                    if i <= t {
                        assert(r_new[t] == (r_old[t] - d) % p());
                    } else {
                        assert(coef(bv, t - i) == 0);
                        lemma_small_mod(r_old[t] as nat, p() as nat);
                        assert(r_new[t] == (r_old[t] - d) % p());
                    }
                    lemma_add_mod_noop(cv + d, (r_old[t] - d), p());
                    lemma_add_mod_noop(cv + d, r_new[t], p());
                    lemma_mod_twice(r_old[t] - d, p());
                    assert(cv + d + (r_old[t] - d) == cv + r_old[t]);
                    assert(coef(r_old, t) == r_old[t]);
                } else if t == top {
                    assert(coef(vals(remainder@).drop_last(), t) == 0);
                    assert(coef(bv, t - i) == lead);
                    assert(coef(r_old, t) == rt);
                    lemma_add_mod_noop(cv, rt, p());
                    lemma_add_mod_noop(cv, c * lead, p());
                    assert((cv + d + 0) % p() == av[t]);
                } else {
                    assert(coef(vals(remainder@).drop_last(), t) == 0);
                    assert(coef(r_old, t) == 0);
                    assert(coef(bv, t - i) == 0);
                }
            }
        }
        remainder.pop();
        proof {
            assert(vals(remainder@) =~= r_new.drop_last());
        }
    }
    let ghost r_untrimmed = vals(remainder@);
    trim_in_place(&mut remainder);
    proof {
        lemma_trim_coef(r_untrimmed);
        lemma_trim_idempotent(r_untrimmed);
        lemma_trim_nonempty(r_untrimmed);
        lemma_div_outcome(vals(quotient@), vals(remainder@), av, bv);
    }
    Ok((quotient, remainder))
}

/// Trimming keeps at least one coefficient of a nonempty polynomial.
proof fn lemma_trim_nonempty(s: Seq<int>)
    ensures
        s.len() >= 1 ==> trim(s).len() >= 1,
    decreases s.len(),
{
    if s.len() > 1 && s.last() == 0 {
        lemma_trim_nonempty(s.drop_last());
    }
}

/// What a division with a short remainder gives, at every degree.
proof fn lemma_div_outcome(q: Seq<int>, rem: Seq<int>, a: Seq<int>, b: Seq<int>)
    requires
        rem.len() < b.len(),
        q.len() == 0 || q.len() + b.len() <= a.len() + 1,
        rem.len() <= a.len(),
        forall|i: int| 0 <= i < rem.len() ==> 0 <= #[trigger] rem[i] < p(),
        forall|i: int| 0 <= i < a.len() ==> 0 <= #[trigger] a[i] < p(),
        forall|t: int| 0 <= t < a.len() ==> (#[trigger] conv(q, b, t) + coef(rem, t)) % p() == a[t],
    ensures
        forall|t: int| t >= 0 ==> (#[trigger] conv(q, b, t) + coef(rem, t)) % p() == coef(a, t),
        all_zero(rem) ==> is_product(q, b, a),
        crate::field_babybear::is_invertible(b.last()) && divides(b, a) ==> all_zero(rem),
{
    assert forall|t: int| t >= 0 implies (#[trigger] conv(q, b, t) + coef(rem, t)) % p() == coef(
        a,
        t,
    ) by {
        if t >= a.len() {
            lemma_conv_beyond(q, b, t);
            lemma_small_mod(0, p() as nat);
        }
    }
    assert forall|t: int| t >= 0 implies (#[trigger] conv(q, b, t) + coef(rem, t)) % p() == coef(
        a,
        t,
    ) % p() by {
        if 0 <= t < a.len() {
            lemma_small_mod(a[t] as nat, p() as nat);
        } else {
            lemma_small_mod(0, p() as nat);
        }
    }
    lemma_remainder_zero_iff(q, rem, b, a);
}

pub(crate) proof fn lemma_trim_coef(s: Seq<int>)
    ensures
        forall|t: int| #[trigger] coef(trim(s), t) == coef(s, t),
        trim(s).len() <= s.len(),
    decreases s.len(),
{
    if s.len() > 1 && s.last() == 0 {
        lemma_trim_coef(s.drop_last());
    }
}

proof fn lemma_trim_idempotent(s: Seq<int>)
    ensures
        trim(trim(s)) == trim(s),
    decreases s.len(),
{
    if s.len() > 1 && s.last() == 0 {
        lemma_trim_idempotent(s.drop_last());
    }
}

/// The smallest power of two that is at least `n`, with its exponent, for `n <= 2^27`.
fn next_pow2(n: usize) -> (r: (usize, u32))
    requires
        n <= 0x800_0000,
    ensures
        r.0 == pow2(r.1 as nat),
        r.1 <= 27,
        n <= r.0,
        r.1 > 0 ==> pow2((r.1 - 1) as nat) < n,
{
    let mut m: usize = 1;
    let mut k: u32 = 0;
    proof {
        lemma2_to64();
    }
    while m < n
        invariant
            k <= 27,
            m == pow2(k as nat),
            n <= 0x800_0000,
            k > 0 ==> pow2((k - 1) as nat) < n,
        decreases 27 - k,
    {
        proof {
            lemma2_to64();
            if k == 27 {
                assert(false);
            }
            lemma_pow2_unfold((k + 1) as nat);
        }
        m = m * 2;
        k = k + 1;
    }
    (m, k)
}

/// `a` followed by zeros up to length `n`.
fn pad_poly(a: &[FpBabyBear], n: usize) -> (r: Vec<FpBabyBear>)
    requires
        a@.len() <= n,
    ensures
        r@.len() == n,
        forall|i: int| 0 <= i < n ==> #[trigger] r@[i].val() == coef(vals(a@), i),
{
    let mut r: Vec<FpBabyBear> = Vec::new();
    let mut i: usize = 0;
    while i < n
        invariant
            a@.len() <= n,
            i <= n,
            r@.len() == i,
            forall|j: int| 0 <= j < i ==> #[trigger] r@[j].val() == coef(vals(a@), j),
        decreases n - i,
    {
        if i < a.len() {
            r.push(a[i]);
        } else {
            r.push(FpBabyBear::zero());
        }
        i = i + 1;
    }
    r
}

/// The product of two polynomials, computed through the number-theoretic transform.
/// Fails when the product has more than 2^27 coefficients.
pub fn poly_mul(a: &[FpBabyBear], b: &[FpBabyBear]) -> (r: Result<Poly, StarkError>)
    requires
        a@.len() + b@.len() <= usize::MAX,
    ensures
        a@.len() == 0 || b@.len() == 0 ==> (r matches Ok(c) && c@.len() == 0),
        a@.len() > 0 && b@.len() > 0 && a@.len() + b@.len() - 1 > 0x800_0000 ==> r
            == Err::<Poly, StarkError>(StarkError::NoRootOfUnity),
        a@.len() > 0 && b@.len() > 0 && a@.len() + b@.len() - 1 <= 0x800_0000 ==> (r matches Ok(c)
            && c@.len() == a@.len() + b@.len() - 1 && forall|t: int|
            0 <= t < c@.len() ==> #[trigger] c@[t].val() == conv(vals(a@), vals(b@), t) % p()),
{
    if a.len() == 0 || b.len() == 0 {
        return Ok(Vec::new());
    }
    let res_len: usize = a.len() + b.len() - 1;
    if res_len > 0x800_0000 {
        return Err(StarkError::NoRootOfUnity);
    }
    let (n, lg) = next_pow2(res_len);
    let mut a_padded: Vec<FpBabyBear> = pad_poly(a, n);
    let mut b_padded: Vec<FpBabyBear> = pad_poly(b, n);
    let ghost xa = vals(a_padded@);
    let ghost xb = vals(b_padded@);
    proof {
        assert(is_small_pow2(n as int));
    }
    ntt(&mut a_padded)?;
    ntt(&mut b_padded)?;
    let mut res_padded: Vec<FpBabyBear> = Vec::new();
    let mut k: usize = 0;
    while k < n
        invariant
            a_padded@.len() == n,
            b_padded@.len() == n,
            k <= n,
            res_padded@.len() == k,
            forall|j: int|
                0 <= j < k ==> #[trigger] res_padded@[j].val() == (a_padded@[j].val()
                    * b_padded@[j].val()) % p(),
        decreases n - k,
    {
        res_padded.push(a_padded[k].mul(b_padded[k]));
        k = k + 1;
    }
    let ghost zs = vals(res_padded@);
    intt(&mut res_padded)?;
    res_padded.truncate(res_len);
    proof {
        let va = vals(a@);
        let vb = vals(b@);
        assert forall|i: int| #[trigger] coef(xa, i) == coef(va, i) by {}
        assert forall|i: int| #[trigger] coef(xb, i) == coef(vb, i) by {}
        assert forall|t: int| 0 <= t < res_len implies #[trigger] res_padded@[t].val() == conv(
            va,
            vb,
            t,
        ) % p() by {
            assert(conv(xa, xb, t) == conv(va, vb, t)) by {
                crate::fft_laws::lemma_fsum_ext(
                    (t + 1) as nat,
                    |i: int| coef(xa, i) * coef(xb, t - i),
                    |i: int| coef(va, i) * coef(vb, t - i),
                );
            }
            if n == 1 {
                assert(t == 0);
                let f0 = |i: int| coef(va, i) * coef(vb, 0 - i);
                assert(fsum(0, f0) == 0);
                assert(fsum(1, f0) == fsum(0, f0) + f0(0));
                assert(conv(va, vb, 0) == fsum(1, f0));
                assert(conv(va, vb, 0) == coef(va, 0) * coef(vb, 0));
            } else {
                lemma_pow2_injective(log2_spec(n as int), lg as nat);
                assert forall|j: int| 0 <= j < pow2(lg as nat) implies #[trigger] zs[j] % p() == (
                dft(xa, root_of_unity_spec(lg as nat), j as nat) * dft(
                    xb,
                    root_of_unity_spec(lg as nat),
                    j as nat,
                )) % p() by {
                    let da = dft(xa, root_of_unity_spec(lg as nat), j as nat);
                    let db = dft(xb, root_of_unity_spec(lg as nat), j as nat);
                    lemma_mul_mod_noop(da, db, p());
                    lemma_mod_twice((da % p()) * (db % p()), p());
                }
                crate::fft_laws::lemma_convolution(
                    xa,
                    xb,
                    zs,
                    lg as nat,
                    a@.len(),
                    b@.len(),
                    t as nat,
                );
                let dz = dft(zs, inv_root_of_unity(lg as nat), t as nat);
                let cv = conv(xa, xb, t);
                lemma_pow2_inverse(lg as nat);
                lemma_mul_mod_noop_right(inv_pow2(lg as nat), dz, p());
                lemma_mul_mod_noop_right(inv_pow2(lg as nat), n * cv, p());
                assert(inv_pow2(lg as nat) * (n * cv) == (n * inv_pow2(lg as nat)) * cv) by (
                nonlinear_arith);
                lemma_mul_mod_noop_left(n * inv_pow2(lg as nat), cv, p());
            }
        }
    }
    Ok(res_padded)
}

/// `prod (t - xs[j])` over `j < m` with `j != i`, over the integers.
pub open spec fn lagrange_factor_prod(xs: Seq<int>, i: int, m: nat, t: int) -> int
    decreases m,
{
    if m == 0 {
        1
    } else if m - 1 == i {
        lagrange_factor_prod(xs, i, (m - 1) as nat, t)
    } else {
        lagrange_factor_prod(xs, i, (m - 1) as nat, t) * (t - xs[m - 1])
    }
}

/// The denominator of the i-th Lagrange basis polynomial, `prod_{j != i} (xs[i] - xs[j])`.
pub open spec fn lagrange_denominator(xs: Seq<int>, i: int) -> int {
    lagrange_factor_prod(xs, i, xs.len(), xs[i])
}

/// The x-coordinates of `points`.
pub open spec fn point_xs(points: Seq<(FpBabyBear, FpBabyBear)>) -> Seq<int> {
    Seq::new(points.len(), |i: int| points[i].0.val())
}

/// The factor product vanishes at every other point.
proof fn lemma_factor_prod_vanishes(xs: Seq<int>, i: int, m: nat, k: int)
    requires
        0 <= k < m,
        k != i,
    ensures
        lagrange_factor_prod(xs, i, m, xs[k]) == 0,
    decreases m,
{
    let prev = lagrange_factor_prod(xs, i, (m - 1) as nat, xs[k]);
    if k < m - 1 {
        lemma_factor_prod_vanishes(xs, i, (m - 1) as nat, k);
        if m - 1 != i {
            assert(0 * (xs[k] - xs[m - 1]) == 0);
        }
    } else {
        assert(prev * 0 == 0);
    }
}

/// Multiplying by `x - xj` (coefficients `[-xj mod p, 1]`) extends the factor product.
proof fn lemma_times_factor(li: Seq<int>, c: Seq<int>, xj: int, t: int, prod: int, next: int)
    requires
        c.len() == li.len() + 1,
        forall|k: int| 0 <= k < c.len() ==> #[trigger] c[k] == conv(li, seq![(-xj) % p(), 1], k) % p(),
        poly_value(li, t) % p() == prod % p(),
        next == prod * (t - xj),
    ensures
        poly_value(c, t) % p() == next % p(),
{
    let b0 = (-xj) % p();
    let raw = Seq::new(li.len() + 1, |k: int| conv(li, seq![b0, 1], k));
    assert forall|k: int| 0 <= k < c.len() implies #[trigger] c[k] % p() == raw[k] % p() by {
        lemma_mod_twice(raw[k], p());
    }
    lemma_poly_value_congr(c, raw, t);
    lemma_value_times_linear(li, b0, t);
    let v = poly_value(li, t);
    lemma_mul_mod_noop(v, t + b0, p());
    lemma_mul_mod_noop(prod, t - xj, p());
    lemma_add_mod_noop(t, b0, p());
    lemma_mod_twice(-xj, p());
    lemma_add_mod_noop(t, -xj, p());
    assert((t + b0) % p() == (t - xj) % p());
}

/// The polynomial through `points`, with as many coefficients as points (one for none):
/// the sum over i of `y_i * prod_{j != i} (x - x_j) / (x_i - x_j)`. Fails when that
/// many coefficients exceed 2^27.
pub fn lagrange_interpolate(points: &[(FpBabyBear, FpBabyBear)]) -> (r: Result<Poly, StarkError>)
    requires
        points@.len() <= 0x800_0000 ==> forall|i: int|
            0 <= i < points@.len() ==> #[trigger] is_invertible(
                lagrange_denominator(point_xs(points@), i),
            ),
    ensures
        points@.len() > 0x800_0000 ==> r == Err::<Poly, StarkError>(StarkError::NoRootOfUnity),
        points@.len() <= 0x800_0000 ==> (r matches Ok(res) && res@.len() == (if points@.len()
            == 0 {
            1
        } else {
            points@.len()
        }) && forall|k: int|
            0 <= k < points@.len() ==> #[trigger] (poly_value(vals(res@), points@[k].0.val()) % p())
                == points@[k].1.val()),
        points@.len() == 0 ==> (r matches Ok(res) && res@[0].val() == 0),
{
    let n: usize = points.len();
    let ghost xs = point_xs(points@);
    let mut res: Vec<FpBabyBear> = vec![FpBabyBear::zero()];
    proof {
        reveal_with_fuel(crate::fft_laws::fsum, 2);
        assert forall|k: int| 0 <= k < n implies #[trigger] (poly_value(vals(res@), xs[k]) % p())
            == 0 by {
            assert(poly_value(vals(res@), xs[k]) == 0 * pow(xs[k], 0));
            lemma_small_mod(0, p() as nat);
        }
    }
    let mut i: usize = 0;
    while i < n
        invariant
            n == points@.len(),
            xs == point_xs(points@),
            n <= 0x800_0000 ==> forall|i: int|
                0 <= i < n ==> #[trigger] is_invertible(lagrange_denominator(xs, i)),
            i <= n,
            i > 0 ==> n <= 0x800_0000,
            i == 0 ==> res@[0].val() == 0,
            res@.len() == (if i == 0 {
                1
            } else {
                n as int
            }),
            forall|k: int|
                0 <= k < n ==> #[trigger] (poly_value(vals(res@), xs[k]) % p()) == (if k < i {
                    points@[k].1.val()
                } else {
                    0
                }),
        decreases n - i,
    {
        let xi: FpBabyBear = points[i].0;
        let yi: FpBabyBear = points[i].1;
        let mut li: Vec<FpBabyBear> = vec![FpBabyBear::one()];
        let mut denominator: FpBabyBear = FpBabyBear::one();
        proof {
            reveal_with_fuel(crate::fft_laws::fsum, 2);
            assert forall|t: int| #[trigger] (poly_value(vals(li@), t) % p())
                == lagrange_factor_prod(xs, i as int, 0, t) % p() by {
                lemma_pow0(t);
                assert(poly_value(vals(li@), t) == 1 * pow(t, 0));
            }
            lemma_small_mod(1, p() as nat);
        }
        let mut j: usize = 0;
        while j < n
            invariant
                n == points@.len(),
                xs == point_xs(points@),
                i < n,
                xi.val() == xs[i as int],
                j <= n,
                li@.len() == (if j > i {
                    j as int
                } else {
                    j + 1
                }),
                li@.len() <= 0x800_0000,
                forall|t: int|
                    #[trigger] (poly_value(vals(li@), t) % p()) == lagrange_factor_prod(
                        xs,
                        i as int,
                        j as nat,
                        t,
                    ) % p(),
                denominator.val() == lagrange_factor_prod(xs, i as int, j as nat, xs[i as int])
                    % p(),
            decreases n - j,
        {
            if j != i {
                let xj: FpBabyBear = points[j].0;
                let factor: Vec<FpBabyBear> = vec![xj.neg(), FpBabyBear::one()];
                let ghost old_li = vals(li@);
                proof {
                    assert(vals(factor@) =~= seq![(-xj.val()) % p(), 1]);
                    assert(xj.val() == xs[j as int]);
                }
                li = match poly_mul(li.as_slice(), factor.as_slice()) {
                    Ok(x) => x,
                    Err(e) => {
                        return Err(e);
                    },
                };
                let ghost d_old = denominator.val();
                denominator = denominator.mul(xi.sub(xj));
                proof {
                    assert forall|t: int| #[trigger] (poly_value(vals(li@), t) % p())
                        == lagrange_factor_prod(xs, i as int, (j + 1) as nat, t) % p() by {
                        assert(poly_value(old_li, t) % p() == lagrange_factor_prod(
                            xs,
                            i as int,
                            j as nat,
                            t,
                        ) % p());
                        lemma_times_factor(
                            old_li,
                            vals(li@),
                            xs[j as int],
                            t,
                            lagrange_factor_prod(xs, i as int, j as nat, t),
                            lagrange_factor_prod(xs, i as int, (j + 1) as nat, t),
                        );
                    }
                    let pd = lagrange_factor_prod(xs, i as int, j as nat, xs[i as int]);
                    lemma_mul_mod_noop(pd, xs[i as int] - xs[j as int], p());
                }
            }
            j = j + 1;
        }
        let ghost d = lagrange_denominator(xs, i as int);
        proof {
            crate::field_babybear::lemma_invertible_mod(d);
            lemma_small_mod(denominator.val() as nat, p() as nat);
        }
        let inv: FpBabyBear = denominator.inverse().unwrap();
        let scale: FpBabyBear = yi.mul(inv);
        let term: Poly = poly_scale(li.as_slice(), scale);
        let ghost old_res = vals(res@);
        res = poly_add(res.as_slice(), term.as_slice());
        proof {
            let lv = vals(li@);
            let tv = vals(term@);
            let sv = scale.val();
            assert forall|k: int| 0 <= k < n implies #[trigger] (poly_value(vals(res@), xs[k])
                % p()) == (if k < i + 1 {
                points@[k].1.val()
            } else {
                0
            }) by {
                let x = xs[k];
                // the value of the term at x
                let scaled = Seq::new(lv.len(), |m: int| lv[m] * sv);
                assert forall|m: int| 0 <= m < tv.len() implies #[trigger] tv[m] % p() == scaled[m]
                    % p() by {
                    lemma_mod_twice(lv[m] * sv, p());
                }
                lemma_poly_value_congr(tv, scaled, x);
                lemma_poly_value_scale(lv, sv, x);
                let pv = lagrange_factor_prod(xs, i as int, n as nat, x);
                lemma_mul_mod_noop(poly_value(lv, x), sv, p());
                lemma_mul_mod_noop(pv, sv, p());
                assert(poly_value(tv, x) % p() == (pv * sv) % p());
                if k != i {
                    lemma_factor_prod_vanishes(xs, i as int, n as nat, k);
                    assert(pv == 0);
                    assert(0 * sv == 0);
                    assert(pv * sv == 0);
                    lemma_small_mod(0, p() as nat);
                } else {
                    // d * (y * d^-1) = y
                    let dv = denominator.val();
                    let y = yi.val();
                    let iv = inv.val();
                    assert(pv == d);
                    assert((dv * iv) % p() == 1);
                    lemma_mul_mod_noop(d, sv, p());
                    lemma_mul_mod_noop_right(y, iv, p());
                    assert(sv == (y * iv) % p());
                    lemma_mul_mod_noop_right(dv, y * iv, p());
                    assert(dv * (y * iv) == y * (dv * iv)) by (nonlinear_arith);
                    lemma_mul_mod_noop_right(y, dv * iv, p());
                    lemma_small_mod(y as nat, p() as nat);
                    assert(y * 1 == y);
                    assert((pv * sv) % p() == y);
                }
                // the sum
                let big: nat = res@.len() as nat;
                let summed = Seq::new(big, |m: int| coef(old_res, m) + coef(tv, m));
                assert forall|m: int| 0 <= m < big implies #[trigger] vals(res@)[m] % p()
                    == summed[m] % p() by {
                    lemma_mod_twice(summed[m], p());
                }
                lemma_poly_value_congr(vals(res@), summed, x);
                lemma_poly_value_add(old_res, tv, big, x);
                lemma_add_mod_noop(poly_value(old_res, x), poly_value(tv, x), p());
                lemma_small_mod(points@[k].1.val() as nat, p() as nat);
                lemma_small_mod(0, p() as nat);
            }
        }
        i = i + 1;
    }
    proof {
        assert forall|k: int| 0 <= k < points@.len() implies #[trigger] (poly_value(
            vals(res@),
            points@[k].0.val(),
        ) % p()) == points@[k].1.val() by {
            assert(xs[k] == points@[k].0.val());
        }
    }
    Ok(res)
}

} // verus!
