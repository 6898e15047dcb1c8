//! The algebraic intermediate representation of a Fibonacci computation.
use crate::domain::{EvaluationDomain, StarkDomain};
use crate::error::StarkError;
use crate::fft::ntt_of;
use crate::fft_laws::{fsum, lemma_fsum_at_most_one, lemma_fsum_zeros, lemma_intt_interpolates};
use crate::field_babybear::{
    lemma_inverse_spec, lemma_root_of_unity, inv_spec, is_invertible, lemma_invertible_mod, p, root_of_unity_spec, vals, FpBabyBear, GENERATOR, TWO_ADIC_ROOT_OF_UNITY,
};
use crate::field_laws::{
    lemma_odd_divides, lemma_pow_invertible, lemma_root_powers_distinct, in_two_group, lemma_coset_avoids_two_group, lemma_coset_power_not_one, lemma_nonzero_invertible,
    lemma_root_in_two_group, lemma_two_group_pow,
};
use crate::poly::{
    all_zero, coef, conv, linear_factor, divides, is_product, is_zero_poly, poly_div, poly_mul, poly_shift,
    poly_sub, poly_sub_spec, shift_spec, Poly,
};
use crate::poly_laws::{
    lemma_cancel_invertible, lemma_fsum_drop_first, lemma_two_factors, lemma_value_arg_mod,
    lemma_divides_congr, lemma_factor_theorem, lemma_value_linear_factor, lemma_product_evaluates, lemma_quotient_unique, lemma_value_shift,
    lemma_value_sub,
};
use crate::poly::poly_value;
use crate::poly_laws::{lemma_conv_beyond, lemma_division_unique};
use crate::poly_ring::{
    lemma_is_product_congr, lemma_root_product_step, lemma_vanishing_divisible, poly_eq, root_pow,
    root_product,
};
use vstd::arithmetic::mul::*;
use vstd::arithmetic::div_mod::*;
use vstd::arithmetic::power::*;
use vstd::arithmetic::power2::*;
use vstd::prelude::*;

verus! {

broadcast use FpBabyBear::lemma_val_range;

/// The Fibonacci sequence 1, 1, 2, 3, ... modulo p.
pub open spec fn fib_trace(i: nat) -> int
    decreases i,
{
    if i <= 1 {
        1
    } else {
        (fib_trace((i - 1) as nat) + fib_trace((i - 2) as nat)) % p()
    }
}

/// `(num * den^-1) mod p`.
pub open spec fn div_spec(num: int, den: int) -> int {
    (num * inv_spec(den)) % p()
}

/// The quadratic polynomial `(x - r1) * (x - r2)`, coefficients reduced modulo p.
pub open spec fn zerofier_den(r1: int, r2: int) -> Seq<int> {
    Seq::new(3, |t: int| conv(linear_factor(r1), linear_factor(r2), t) % p())
}

/// The number of coefficients of the quotient of a polynomial with `a` coefficients by
/// one with `b` (none when the divisor is the longer).
pub open spec fn quotient_len(a: nat, b: nat) -> nat {
    if b <= a {
        (a - b + 1) as nat
    } else {
        0
    }
}

/// The polynomial `x^n - 1`, vanishing on the subgroup of order n.
pub open spec fn vanishing_poly(n: nat) -> Seq<int> {
    Seq::new(
        n + 1,
        |i: int|
            if i == 0 {
                p() - 1
            } else if i == n {
                1
            } else {
                0
            },
    )
}

/// The Fibonacci transition `P(g^2 x) - P(g x) - P(x)` of the trace polynomial `t`.
pub open spec fn transition_numerator(t: Seq<int>, g: int) -> Seq<int> {
    let s1 = shift_spec(t, g);
    poly_sub_spec(poly_sub_spec(shift_spec(s1, g), s1), t)
}

/// A computation described by constraints over its execution trace.
pub trait Air {
    /// The AIR's own parameters admit an execution trace.
    spec fn trace_ready(&self) -> bool;

    /// The AIR's parameters, the trace polynomials and the domain admit building the
    /// constraint polynomials.
    spec fn constraints_ready(&self, trace_polys: Seq<Poly>, domain: StarkDomain) -> bool;

    /// The AIR's own parameters admit evaluating its constraints at single points.
    spec fn points_ready(&self) -> bool;

    /// The extended trace and the domain admit evaluating the constraints on the domain.
    spec fn lde_ready(&self, trace_lde: Seq<FpBabyBear>, domain: StarkDomain) -> bool;

    fn trace_len(&self) -> usize;

    fn public_inputs(&self) -> Vec<FpBabyBear>;

    fn get_execution_trace(&self) -> Result<Vec<Vec<FpBabyBear>>, StarkError>
        requires
            self.trace_ready(),
    ;

    fn get_constraint_polynomials(&self, trace_polys: &[Poly], domain: &StarkDomain) -> Result<
        Vec<Poly>,
        StarkError,
    >
        requires
            self.constraints_ready(trace_polys@, *domain),
    ;

    fn evaluate_constraints_on_lde(&self, trace_lde: &[FpBabyBear], domain: &StarkDomain) -> Result<
        Vec<Vec<FpBabyBear>>,
        StarkError,
    >
        requires
            self.lde_ready(trace_lde@, *domain),
    ;

    fn evaluate_constraints(
        &self,
        z: FpBabyBear,
        trace_evals: &[FpBabyBear],
        domain: &StarkDomain,
    ) -> Result<Vec<FpBabyBear>, StarkError>
        requires
            self.points_ready(),
    ;
}

/// A Fibonacci trace of `trace_len` steps whose last element is `result`.
pub struct FibonacciAir {
    trace_len: usize,
    result: FpBabyBear,
}

impl FibonacciAir {
    /// The number of trace steps.
    pub closed spec fn spec_trace_len(&self) -> nat {
        self.trace_len as nat
    }

    /// The claimed last trace element.
    pub closed spec fn spec_result(&self) -> FpBabyBear {
        self.result
    }

    pub fn new(trace_len: usize, result: FpBabyBear) -> (r: Self)
        ensures
            r.spec_trace_len() == trace_len,
            r.spec_result() == result,
    {
        Self { trace_len, result }
    }

    /// What the constraint polynomials of the trace polynomial `t` over a trace domain
    /// generated by `g` come to: `t` must take the value 1 at 1 and the result at the
    /// last trace point `g^(n-1)`, the zerofier
    /// `(x^n - 1) / ((x - g^(n-1)) * (x - g^(n-2)))` must be a polynomial, and it must
    /// divide the transition `t(g^2 x) - t(g x) - t(x)`; the quotients are returned, each
    /// with as many coefficients as long division gives.
    pub open spec fn constraint_polys_spec(
        &self,
        t: Seq<int>,
        g: int,
        r: Result<Vec<Poly>, StarkError>,
    ) -> bool {
        let n = self.spec_trace_len();
        let lp = pow(g, (n - 1) as nat) % p();
        let first = poly_sub_spec(t, seq![1]);
        let last = poly_sub_spec(t, seq![self.spec_result().val()]);
        let zden = zerofier_den(lp, (lp * inv_spec(g)) % p());
        let znum = vanishing_poly(n);
        let tn = transition_numerator(t, g);
        if !is_invertible(g) {
            r == Err::<Vec<Poly>, StarkError>(StarkError::GeneratorNotInvertible)
        } else if poly_value(t, 1) % p() != 1 {
            r == Err::<Vec<Poly>, StarkError>(StarkError::FirstBoundaryRemainder)
        } else if poly_value(t, lp) % p() != self.spec_result().val() {
            r == Err::<Vec<Poly>, StarkError>(StarkError::LastBoundaryRemainder)
        } else if !divides(zden, znum) {
            r == Err::<Vec<Poly>, StarkError>(StarkError::ZerofierRemainder)
        } else if forall|z: Seq<int>| #[trigger] is_product(z, zden, znum) ==> !divides(z, tn) {
            r == Err::<Vec<Poly>, StarkError>(StarkError::TransitionRemainder)
        } else {
            &&& r matches Ok(v)
            &&& v@.len() == 3
            &&& v@[0]@.len() == quotient_len(first.len(), 2)
            &&& v@[1]@.len() == quotient_len(last.len(), 2)
            &&& v@[2]@.len() == quotient_len(tn.len(), (n - 1) as nat)
            &&& is_product(vals(v@[0]@), linear_factor(1), first)
            &&& is_product(vals(v@[1]@), linear_factor(lp), last)
            &&& exists|z: Seq<int>|
                #[trigger] is_product(z, zden, znum) && is_product(vals(v@[2]@), z, tn)
        }
    }

    /// Whether the constraints can be evaluated over the extension of the trace
    /// `trace_lde` on `domain` (what `evaluate_constraints_on_lde` needs): a trace of at
    /// least two steps, enough extended values, and no point of the extension domain at
    /// which a constraint's denominator vanishes.
    pub fn can_evaluate_on_lde(&self, trace_lde: &[FpBabyBear], domain: &StarkDomain) -> (r: bool)
        ensures
            r == self.lde_ready(trace_lde@, *domain),
    {
        let d: EvaluationDomain = domain.lde_domain;
        let size: usize = d.size();
        let bf: usize = domain.blowup_factor;
        if self.trace_len < 2 || size < 1 || trace_lde.len() < size {
            return false;
        }
        if bf > (usize::MAX - size) / 2 {
            return false;
        }
        let n: u64 = self.trace_len as u64;
        let g: FpBabyBear = domain.trace_generator();
        let one: FpBabyBear = FpBabyBear::one();
        let last_point: FpBabyBear = g.pow(n - 1);
        let xs: Vec<FpBabyBear> = d.elements();
        let mut i: usize = 0;
        while i < size
            invariant
                self.spec_trace_len() >= 2,
                size == d.size,
                d == domain.lde_domain,
                n == self.spec_trace_len(),
                g == domain.trace_domain.group_gen,
                one.val() == 1,
                last_point.val() == pow(g.val(), (n - 1) as nat) % p(),
                xs@.len() == size,
                forall|j: int|
                    0 <= j < size ==> #[trigger] xs@[j].val() == (pow(d.group_gen.val(), j as nat)
                        * d.offset.val()) % p(),
                i <= size,
                forall|j: int|
                    0 <= j < i ==> {
                        let x = #[trigger] ((pow(d.group_gen.val(), j as nat) * d.offset.val()) % p());
                        &&& is_invertible(x - 1)
                        &&& is_invertible(x - pow(g.val(), (n - 1) as nat) % p())
                        &&& is_invertible(pow(x, n as nat) - 1)
                    },
            decreases size - i,
        {
            let x: FpBabyBear = xs[i];
            let ghost xv = x.val();
            proof {
                assert(xv == (pow(d.group_gen.val(), i as nat) * d.offset.val()) % p());
                lemma_invertible_mod(xv - 1);
                lemma_invertible_mod(xv - last_point.val());
                lemma_invertible_mod(pow(xv, n as nat) % p() - 1);
                lemma_invertible_mod(pow(xv, n as nat) - 1);
                lemma_sub_mod_noop(pow(xv, n as nat), 1, p());
                lemma_mod_twice(pow(xv, n as nat), p());
                lemma_small_mod(1, p() as nat);
            }
            if x.sub(one).inverse().is_none() {
                return false;
            }
            if x.sub(last_point).inverse().is_none() {
                return false;
            }
            if x.pow(n).sub(one).inverse().is_none() {
                return false;
            }
            i = i + 1;
        }
        true
    }

    /// The constraint values over the extension domain: at each of its points `x`, the
    /// two boundary quotients of the extended trace value there, and the transition
    /// value (from the values one and two blowups further on) times the inverse
    /// zerofier `(x - g^(n-1)) (x - g^(n-2)) / (x^n - 1)`.
    pub open spec fn lde_constraints_spec(
        &self,
        trace_lde: Seq<FpBabyBear>,
        domain: StarkDomain,
        cols: Vec<Vec<FpBabyBear>>,
    ) -> bool {
        let d = domain.lde_domain;
        let size = d.size as int;
        let bf = domain.blowup_factor as int;
        let n = self.spec_trace_len();
        let g = domain.trace_domain.group_gen.val();
        &&& cols@.len() == 3
        &&& cols@[0]@.len() == size
        &&& cols@[1]@.len() == size
        &&& cols@[2]@.len() == size
        &&& forall|i: int|
            0 <= i < size ==> {
                let x = #[trigger] ((pow(d.group_gen.val(), i as nat) * d.offset.val()) % p());
                let pv = trace_lde[i].val();
                &&& cols@[0]@[i].val() == div_spec(pv - 1, x - 1)
                &&& cols@[1]@[i].val() == div_spec(
                    pv - self.spec_result().val(),
                    x - self.last_point(domain),
                )
                &&& cols@[2]@[i].val() == ((trace_lde[(i + 2 * bf) % size].val() - trace_lde[(i
                    + bf) % size].val() - pv) * div_spec(
                    (x - pow(g, (n - 1) as nat) % p()) * (x - pow(g, (n - 2) as nat) % p()),
                    pow(x, n) - 1,
                )) % p()
            }
    }

    /// Every check of `get_constraint_polynomials` before the zerofier passes: one trace
    /// polynomial, an invertible trace generator, and both boundary values.
    pub open spec fn boundaries_hold(&self, trace_polys: Seq<Poly>, domain: StarkDomain) -> bool {
        let g = domain.trace_domain.group_gen.val();
        let t = vals(trace_polys[0]@);
        &&& trace_polys.len() == 1
        &&& is_invertible(g)
        &&& poly_value(t, 1) % p() == 1
        &&& poly_value(t, pow(g, (self.spec_trace_len() - 1) as nat) % p()) % p()
            == self.spec_result().val()
    }

    /// The trace point `g^(trace_len - 1)` at which the last boundary constraint sits.
    pub open spec fn last_point(&self, domain: StarkDomain) -> int {
        pow(domain.trace_domain.group_gen.val(), (self.spec_trace_len() - 1) as nat) % p()
    }
}

impl Air for FibonacciAir {
    open spec fn trace_ready(&self) -> bool {
        self.spec_trace_len() >= 2
    }

    /// At least one trace step; and at the largest trace length, where the zerofier
    /// `x^n - 1` has more coefficients than a vector can hold, one of the checks before it
    /// fails.
    open spec fn constraints_ready(&self, trace_polys: Seq<Poly>, domain: StarkDomain) -> bool {
        &&& self.spec_trace_len() >= 1
        &&& self.spec_trace_len() == usize::MAX ==> !self.boundaries_hold(trace_polys, domain)
    }

    open spec fn points_ready(&self) -> bool {
        self.spec_trace_len() >= 1
    }

    open spec fn lde_ready(&self, trace_lde: Seq<FpBabyBear>, domain: StarkDomain) -> bool {
        let d = domain.lde_domain;
        let g = domain.trace_domain.group_gen.val();
        let n = self.spec_trace_len();
        &&& n >= 2
        &&& d.size >= 1
        &&& trace_lde.len() >= d.size
        &&& d.size + 2 * domain.blowup_factor <= usize::MAX
        &&& forall|i: int|
            0 <= i < d.size ==> {
                let x = #[trigger] ((pow(d.group_gen.val(), i as nat) * d.offset.val()) % p());
                &&& is_invertible(x - 1)
                &&& is_invertible(x - pow(g, (n - 1) as nat) % p())
                &&& is_invertible(pow(x, n) - 1)
            }
    }

    fn trace_len(&self) -> (r: usize)
        ensures
            r == self.spec_trace_len(),
    {
        self.trace_len
    }

    fn public_inputs(&self) -> (r: Vec<FpBabyBear>)
        ensures
            r@.len() == 2,
            r@[0].val() == 1,
            r@[1] == self.spec_result(),
    {
        vec![FpBabyBear::one(), self.result]
    }

    fn get_execution_trace(&self) -> (r: Result<Vec<Vec<FpBabyBear>>, StarkError>)
        ensures
            fib_trace((self.spec_trace_len() - 1) as nat) != self.spec_result().val() ==> r
                == Err::<Vec<Vec<FpBabyBear>>, StarkError>(StarkError::ResultMismatch),
            fib_trace((self.spec_trace_len() - 1) as nat) == self.spec_result().val() ==> (r matches Ok(
                cols,
            ) && cols@.len() == 1 && cols@[0]@.len() == self.spec_trace_len() && forall|i: int|
                0 <= i < self.spec_trace_len() ==> #[trigger] cols@[0]@[i].val() == fib_trace(
                    i as nat,
                )),
    {
        let n: usize = self.trace_len;
        let mut trace: Vec<FpBabyBear> = Vec::new();
        trace.push(FpBabyBear::one());
        trace.push(FpBabyBear::one());
        let mut i: usize = 2;
        while i < n
            invariant
                2 <= i <= n,
                trace@.len() == i,
                forall|j: int| 0 <= j < i ==> #[trigger] trace@[j].val() == fib_trace(j as nat),
            decreases n - i,
        {
            let next: FpBabyBear = trace[i - 1].add(trace[i - 2]);
            trace.push(next);
            i = i + 1;
        }
        let last_element: FpBabyBear = trace[n - 1];
        if last_element != self.result {
            return Err(StarkError::ResultMismatch);
        }
        Ok(vec![trace])
    }

    fn get_constraint_polynomials(&self, trace_polys: &[Poly], domain: &StarkDomain) -> (r: Result<
        Vec<Poly>,
        StarkError,
    >)
        ensures
            trace_polys@.len() != 1 ==> r == Err::<Vec<Poly>, StarkError>(
                StarkError::WrongTraceColumnCount,
            ),
            trace_polys@.len() == 1 ==> self.constraint_polys_spec(
                vals(trace_polys@[0]@),
                domain.trace_domain.group_gen.val(),
                r,
            ),
    {
        if trace_polys.len() != 1 {
            return Err(StarkError::WrongTraceColumnCount);
        }
        let tp: &Poly = &trace_polys[0];
        let ghost t = vals(tp@);
        let g: FpBabyBear = domain.trace_domain.group_gen();
        let ghost gv = g.val();
        let g_inv: FpBabyBear = match g.inverse() {
            Some(x) => x,
            None => {
                return Err(StarkError::GeneratorNotInvertible);
            },
        };
        let ghost n = self.spec_trace_len();
        let one: FpBabyBear = FpBabyBear::one();
        proof {
            lemma_one_invertible();
        }
        // P(x) - 1 over (x - 1)
        let one_poly: Vec<FpBabyBear> = vec![one];
        let p_minus_1: Poly = poly_sub(tp, &one_poly);
        let d_first: Vec<FpBabyBear> = vec![one.neg(), one];
        proof {
            assert(vals(one_poly@) =~= seq![1]);
            assert(vals(d_first@) =~= linear_factor(1));
            assert(vals(d_first@)[1] == 1);
        }
        let (boundary_constraint_0, rem0) = match poly_div(&p_minus_1, &d_first) {
            Ok(x) => x,
            Err(e) => {
                return Err(e);
            },
        };
        proof {
            lemma_boundary_divides(t, 1, 1);
            lemma_small_mod(1, p() as nat);
        }
        if !is_zero_poly(&rem0) {
            return Err(StarkError::FirstBoundaryRemainder);
        }
        // P(x) - result over (x - g^(n-1))

        let last_point: FpBabyBear = g.pow((self.trace_len - 1) as u64);
        let ghost lp = last_point.val();
        let res_poly: Vec<FpBabyBear> = vec![self.result];
        let p_minus_res: Poly = poly_sub(tp, &res_poly);
        let d_last: Vec<FpBabyBear> = vec![last_point.neg(), one];
        proof {
            assert(vals(res_poly@) =~= seq![self.result.val()]);
            assert(vals(d_last@) =~= linear_factor(lp));
            assert(vals(d_last@)[1] == 1);
        }
        let (boundary_constraint_1, rem1) = match poly_div(&p_minus_res, &d_last) {
            Ok(x) => x,
            Err(e) => {
                return Err(e);
            },
        };
        proof {
            lemma_boundary_divides(t, lp, self.result.val());
            lemma_small_mod(self.result.val() as nat, p() as nat);
        }
        if !is_zero_poly(&rem1) {
            return Err(StarkError::LastBoundaryRemainder);
        }
        // P(x g^2) - P(x g) - P(x)

        let p_next: Poly = poly_shift(tp, g);
        let p_next_next: Poly = poly_shift(&p_next, g);
        let diff: Poly = poly_sub(&p_next_next, &p_next);
        let transition_num: Poly = poly_sub(&diff, tp);
        // the zerofier (x^n - 1) / ((x - g^(n-1)) * (x - g^(n-2)))

        let n_exec: usize = self.trace_len;
        let mut z_num: Vec<FpBabyBear> = Vec::new();
        let mut k: usize = 0;
        while k < n_exec + 1
            invariant
                n_exec == n,
                n < usize::MAX,
                k <= n_exec + 1,
                z_num@.len() == k,
                forall|j: int| 0 <= j < k ==> #[trigger] z_num@[j].val() == 0,
            decreases n_exec + 1 - k,
        {
            z_num.push(FpBabyBear::zero());
            k = k + 1;
        }
        z_num.set(n_exec, one);
        z_num.set(0, one.neg());
        let z_den_0: Vec<FpBabyBear> = vec![last_point.neg(), one];
        let z_den_1: Vec<FpBabyBear> = vec![last_point.neg().mul(g_inv), one];
        let ghost lp2 = (lp * inv_spec(gv)) % p();
        proof {
            assert(vals(z_num@) =~= vanishing_poly(n));
            assert(vals(z_den_0@) =~= linear_factor(lp));
            lemma_neg_mul(lp, inv_spec(gv));
            assert(vals(z_den_1@) =~= linear_factor(lp2));
        }
        let z_den: Poly = match poly_mul(&z_den_0, &z_den_1) {
            Ok(x) => x,
            Err(e) => {
                return Err(e);
            },
        };
        let ghost zden = zerofier_den(lp, lp2);
        let ghost znum = vanishing_poly(n);
        proof {
            assert(vals(z_den@) =~= zden);
            lemma_zerofier_den_lead(lp, lp2);
            assert(vals(z_den@)[2] == 1);
        }
        let (z, rem_z) = match poly_div(&z_num, &z_den) {
            Ok(x) => x,
            Err(e) => {
                return Err(e);
            },
        };
        if !is_zero_poly(&rem_z) {
            return Err(StarkError::ZerofierRemainder);
        }
        proof {
            if n == 1 {
                assert(vals(rem_z@)[1] == vals(z_num@)[1]);
                assert(false);
            }
            lemma_zerofier_quotient_lead(vals(z@), vals(rem_z@), zden, n);
            assert(vals(z@)[n - 2] == 1);
            assert(!all_zero(vals(z@)));
        }
        let (transition_constraint, rem_t) = match poly_div(&transition_num, &z) {
            Ok(x) => x,
            Err(e) => {
                return Err(e);
            },
        };
        let ghost tn = transition_numerator(t, gv);
        proof {
            assert(vals(transition_num@) == tn);
            assert forall|zz: Seq<int>| #[trigger] is_product(zz, zden, znum) implies (divides(zz, tn)
                <==> divides(vals(z@), tn)) by {
                lemma_quotient_unique(zz, vals(z@), zden, znum);
                lemma_divides_congr(zz, vals(z@), tn);
            }
        }
        if !is_zero_poly(&rem_t) {
            return Err(StarkError::TransitionRemainder);
        }
        proof {
            assert(is_product(vals(z@), zden, znum) && is_product(
                vals(transition_constraint@),
                vals(z@),
                tn,
            ));
        }
        let r: Vec<Poly> = vec![boundary_constraint_0, boundary_constraint_1, transition_constraint];
        proof {
            assert(vals(r@[2]@) == vals(transition_constraint@));
        }
        Ok(r)
    }

    fn evaluate_constraints_on_lde(&self, trace_lde: &[FpBabyBear], domain: &StarkDomain) -> (r:
        Result<Vec<Vec<FpBabyBear>>, StarkError>)
        ensures
            r matches Ok(cols) && self.lde_constraints_spec(trace_lde@, *domain, cols),
    {
        let lde_size: usize = domain.lde_domain.size();
        let bf: usize = domain.blowup_factor;
        let trace_gen: FpBabyBear = domain.trace_generator();
        let lde_domain_elements: Vec<FpBabyBear> = domain.lde_domain.elements();
        let one: FpBabyBear = FpBabyBear::one();
        let n: u64 = self.trace_len as u64;
        let last_point: FpBabyBear = trace_gen.pow(n - 1);
        let z_den_p1: FpBabyBear = trace_gen.pow(n - 1);
        let z_den_p2: FpBabyBear = trace_gen.pow(n - 2);
        let ghost d = domain.lde_domain;
        let ghost g = domain.trace_domain.group_gen.val();
        let mut boundary_constraint_0: Vec<FpBabyBear> = Vec::new();
        let mut boundary_constraint_1: Vec<FpBabyBear> = Vec::new();
        let mut transition_constraint: Vec<FpBabyBear> = Vec::new();
        let mut i: usize = 0;
        while i < lde_size
            invariant
                self.lde_ready(trace_lde@, *domain),
                d == domain.lde_domain,
                g == domain.trace_domain.group_gen.val(),
                lde_size == d.size,
                bf == domain.blowup_factor,
                n == self.spec_trace_len(),
                lde_domain_elements@.len() == lde_size,
                forall|j: int|
                    0 <= j < lde_size ==> #[trigger] lde_domain_elements@[j].val() == (pow(
                        d.group_gen.val(),
                        j as nat,
                    ) * d.offset.val()) % p(),
                one.val() == 1,
                last_point.val() == self.last_point(*domain),
                z_den_p1.val() == pow(g, (n - 1) as nat) % p(),
                z_den_p2.val() == pow(g, (n - 2) as nat) % p(),
                i <= lde_size,
                boundary_constraint_0@.len() == i,
                boundary_constraint_1@.len() == i,
                transition_constraint@.len() == i,
                forall|j: int|
                    0 <= j < i ==> {
                        let x = #[trigger] ((pow(d.group_gen.val(), j as nat) * d.offset.val()) % p());
                        let pv = trace_lde@[j].val();
                        &&& boundary_constraint_0@[j].val() == div_spec(pv - 1, x - 1)
                        &&& boundary_constraint_1@[j].val() == div_spec(
                            pv - self.spec_result().val(),
                            x - self.last_point(*domain),
                        )
                        &&& transition_constraint@[j].val() == ((trace_lde@[(j + 2 * bf)
                            % (lde_size as int)].val() - trace_lde@[(j + bf) % (lde_size as int)].val()
                            - pv) * div_spec(
                            (x - pow(g, (n - 1) as nat) % p()) * (x - pow(g, (n - 2) as nat) % p()),
                            pow(x, n as nat) - 1,
                        )) % p()
                    },
            decreases lde_size - i,
        {
            let x: FpBabyBear = lde_domain_elements[i];
            let p_val: FpBabyBear = trace_lde[i];
            let ghost xv = x.val();
            proof {
                assert(xv == (pow(d.group_gen.val(), i as nat) * d.offset.val()) % p());
                assert(is_invertible(xv - 1));
                assert(is_invertible(xv - pow(g, (n - 1) as nat) % p()));
                assert(is_invertible(pow(xv, n as nat) - 1));
                lemma_invertible_mod(xv - 1);
                lemma_invertible_mod(xv - last_point.val());
                lemma_invertible_mod(pow(xv, n as nat) % p() - 1);
                lemma_invertible_mod(pow(xv, n as nat) - 1);
                lemma_sub_mod_noop(pow(xv, n as nat), 1, p());
                lemma_mod_twice(pow(xv, n as nat), p());
                lemma_small_mod(1, p() as nat);
            }
            let inv0: FpBabyBear = x.sub(one).inverse().unwrap();
            let b0: FpBabyBear = p_val.sub(one).mul(inv0);
            let inv1: FpBabyBear = x.sub(last_point).inverse().unwrap();
            let b1: FpBabyBear = p_val.sub(self.result).mul(inv1);
            let next_i: usize = (i + bf) % lde_size;
            let next_next_i: usize = (i + 2 * bf) % lde_size;
            let p_i_next: FpBabyBear = trace_lde[next_i];
            let p_i_next_next: FpBabyBear = trace_lde[next_next_i];
            let numerator: FpBabyBear = p_i_next_next.sub(p_i_next).sub(p_val);
            let z_den: FpBabyBear = x.sub(z_den_p1).mul(x.sub(z_den_p2));
            let z_num: FpBabyBear = x.pow(n).sub(one);
            let z_inv: FpBabyBear = z_den.mul(z_num.inverse().unwrap());
            let tc: FpBabyBear = numerator.mul(z_inv);
            proof {
                lemma_div_congruent(p_val.val() - 1, xv - 1);
                lemma_div_congruent(p_val.val() - self.result.val(), xv - last_point.val());
                let den = (xv - pow(g, (n - 1) as nat) % p()) * (xv - pow(g, (n - 2) as nat) % p());
                lemma_mul_mod_noop(
                    xv - pow(g, (n - 1) as nat) % p(),
                    xv - pow(g, (n - 2) as nat) % p(),
                    p(),
                );
                assert(z_den.val() == den % p());
                assert(z_num.val() == (pow(xv, n as nat) - 1) % p());
                lemma_div_congruent(den, pow(xv, n as nat) - 1);
                assert(z_inv.val() == div_spec(den, pow(xv, n as nat) - 1));
                let a = p_i_next_next.val() - p_i_next.val();
                lemma_sub2(a, p_val.val());
                lemma_mul_mod_noop_left(a - p_val.val(), div_spec(den, pow(xv, n as nat) - 1), p());
            }
            boundary_constraint_0.push(b0);
            boundary_constraint_1.push(b1);
            transition_constraint.push(tc);
            i = i + 1;
        }
        Ok(vec![boundary_constraint_0, boundary_constraint_1, transition_constraint])
    }

    fn evaluate_constraints(
        &self,
        z: FpBabyBear,
        trace_evals: &[FpBabyBear],
        domain: &StarkDomain,
    ) -> (r: Result<Vec<FpBabyBear>, StarkError>)
        ensures
            trace_evals@.len() < 1 ==> r == Err::<Vec<FpBabyBear>, StarkError>(
                StarkError::NotEnoughTraceEvaluations,
            ),
            trace_evals@.len() >= 1 && !is_invertible(z.val() - 1) ==> r == Err::<
                Vec<FpBabyBear>,
                StarkError,
            >(StarkError::PointIsFirstRow),
            trace_evals@.len() >= 1 && is_invertible(z.val() - 1) && !is_invertible(
                z.val() - self.last_point(*domain),
            ) ==> r == Err::<Vec<FpBabyBear>, StarkError>(StarkError::PointIsLastRow),
            1 <= trace_evals@.len() < 3 && is_invertible(z.val() - 1) && is_invertible(
                z.val() - self.last_point(*domain),
            ) ==> r == Err::<Vec<FpBabyBear>, StarkError>(StarkError::NotEnoughTraceEvaluations),
            trace_evals@.len() >= 3 && is_invertible(z.val() - 1) && is_invertible(
                z.val() - self.last_point(*domain),
            ) ==> (r matches Ok(v) && v@.len() == 3 && v@[0].val() == div_spec(
                trace_evals@[0].val() - 1,
                z.val() - 1,
            ) && v@[1].val() == div_spec(
                trace_evals@[0].val() - self.spec_result().val(),
                z.val() - self.last_point(*domain),
            ) && v@[2].val() == (trace_evals@[2].val() - trace_evals@[1].val()
                - trace_evals@[0].val()) % p()),
    {
        if trace_evals.len() < 1 {
            return Err(StarkError::NotEnoughTraceEvaluations);
        }
        let p_z: FpBabyBear = trace_evals[0];
        let one: FpBabyBear = FpBabyBear::one();
        let boundary_0_num: FpBabyBear = p_z.sub(one);
        let boundary_0_den: FpBabyBear = z.sub(one);
        proof {
            lemma_invertible_mod(z.val() - 1);
        }
        let boundary_constraint_0: FpBabyBear = match boundary_0_den.inverse() {
            Some(inv) => boundary_0_num.mul(inv),
            None => {
                return Err(StarkError::PointIsFirstRow);
            },
        };
        let g: FpBabyBear = domain.trace_domain.group_gen();
        let last_point: FpBabyBear = g.pow((self.trace_len - 1) as u64);
        let boundary_1_num: FpBabyBear = p_z.sub(self.result);
        let boundary_1_den: FpBabyBear = z.sub(last_point);
        proof {
            lemma_invertible_mod(z.val() - last_point.val());
        }
        let boundary_constraint_1: FpBabyBear = match boundary_1_den.inverse() {
            Some(inv) => boundary_1_num.mul(inv),
            None => {
                return Err(StarkError::PointIsLastRow);
            },
        };
        if trace_evals.len() < 3 {
            return Err(StarkError::NotEnoughTraceEvaluations);
        }
        let p_z_g: FpBabyBear = trace_evals[1];
        let p_z_g2: FpBabyBear = trace_evals[2];
        let transition_constraint_val: FpBabyBear = p_z_g2.sub(p_z_g).sub(p_z);
        proof {
            lemma_sub2(p_z_g2.val() - p_z_g.val(), p_z.val());
            lemma_div_congruent(p_z.val() - 1, z.val() - 1);
            lemma_div_congruent(p_z.val() - self.result.val(), z.val() - last_point.val());
        }
        Ok(vec![boundary_constraint_0, boundary_constraint_1, transition_constraint_val])
    }
}

proof fn lemma_sub2(a: int, b: int)
    ensures
        (a % p() - b) % p() == (a - b) % p(),
{
    lemma_sub_mod_noop(a, b, p());
    lemma_mod_twice(a, p());
    lemma_sub_mod_noop(a % p(), b, p());
}

/// `(num mod p) * inv(den mod p)` is the quotient.
proof fn lemma_div_congruent(num: int, den: int)
    ensures
        ((num % p()) * inv_spec(den % p())) % p() == div_spec(num, den),
{
    lemma_invertible_mod(den);
    lemma_mul_mod_noop_left(num, inv_spec(den), p());
}

/// 1 has an inverse.
proof fn lemma_one_invertible()
    ensures
        is_invertible(1),
{
    lemma_small_mod(1, p() as nat);
    assert((1int * 1int) % p() == 1);
}

/// `(-a mod p) * b` and `-(a * b mod p)` agree modulo p.
proof fn lemma_neg_mul(a: int, b: int)
    ensures
        (((-a) % p()) * b) % p() == (-((a * b) % p())) % p(),
{
    lemma_mul_mod_noop_left(-a, b, p());
    lemma_mul_unary_negation(a, b);
    lemma_sub_mod_noop(0, a * b, p());
    lemma_small_mod(0, p() as nat);
}

/// The product of two monic linear factors is monic.
proof fn lemma_zerofier_den_lead(r1: int, r2: int)
    ensures
        zerofier_den(r1, r2)[2] == 1,
{
    reveal_with_fuel(fsum, 4);
    let f = |i: int| coef(linear_factor(r1), i) * coef(linear_factor(r2), 2 - i);
    assert(linear_factor(r1).len() == 2 && linear_factor(r1)[1] == 1);
    assert(linear_factor(r2).len() == 2 && linear_factor(r2)[1] == 1);
    assert(coef(linear_factor(r1), 1) == 1);
    assert(coef(linear_factor(r2), 2 - 1) == 1);
    assert(f(0) == 0);
    assert(f(1) == 1);
    assert(f(2) == 0);
    assert(conv(linear_factor(r1), linear_factor(r2), 2) == fsum(3, f));
    lemma_small_mod(1, p() as nat);
}

/// The exact quotient of `x^n - 1` by a monic quadratic is monic.
proof fn lemma_zerofier_quotient_lead(z: Seq<int>, rem: Seq<int>, zden: Seq<int>, n: nat)
    requires
        n >= 2,
        z.len() == n - 1,
        rem.len() < 3,
        zden.len() == 3,
        zden[2] == 1,
        forall|i: int| 0 <= i < z.len() ==> 0 <= #[trigger] z[i] < p(),
        forall|t: int|
            t >= 0 ==> (#[trigger] conv(z, zden, t) + coef(rem, t)) % p() == coef(
                vanishing_poly(n),
                t,
            ),
    ensures
        z[n - 2] == 1,
{
    let t = n as int;
    let k = n - 2;
    let f = |i: int| coef(z, i) * coef(zden, t - i);
    assert forall|i: int| 0 <= i < t + 1 && i != k implies #[trigger] f(i) % p() == 0 by {
        if i > k {
            assert(coef(z, i) == 0);
        } else {
            assert(coef(zden, t - i) == 0);
        }
        lemma_small_mod(0, p() as nat);
    }
    assert(f(k) == z[k] * 1);
    lemma_fsum_at_most_one((t + 1) as nat, f, k, z[k]);
    assert(coef(rem, t) == 0);
    assert(coef(vanishing_poly(n), t) == 1);
    assert(conv(z, zden, t) % p() == 1);
    lemma_small_mod(z[k] as nat, p() as nat);
}

/// From `q * d = a` modulo p, with `d` invertible: `q = a / d` modulo p.
proof fn lemma_cancel_factor(q: int, d: int, a: int)
    requires
        (q * d) % p() == a % p(),
        is_invertible(d),
    ensures
        q % p() == div_spec(a, d),
{
    let x = inv_spec(d);
    lemma_inverse_spec(d);
    lemma_mul_mod_noop_left(a, x, p());
    lemma_mul_mod_noop_left(q * d, x, p());
    lemma_mul_is_associative(q, d, x);
    lemma_mul_mod_noop_right(q, d * x, p());
    assert(q * 1 == q);
}

/// Differences of congruent numbers are congruent.
proof fn lemma_congr_sub(a1: int, a2: int, b1: int, b2: int)
    requires
        a1 % p() == a2 % p(),
        b1 % p() == b2 % p(),
    ensures
        (a1 - b1) % p() == (a2 - b2) % p(),
{
    lemma_sub_mod_noop(a1, b1, p());
    lemma_sub_mod_noop(a2, b2, p());
}

/// The constraint polynomials agree with the constraint values at single points: when
/// the constraint polynomials `v` come out of the trace polynomial `t` over a trace
/// domain generated by `g`, then at a point `z` other than 1 and the last trace point
/// the two boundary polynomials take the values that `evaluate_constraints` computes
/// from `t(z)`, and the transition polynomial times the zerofier takes the transition
/// value that it computes from `t(z)`, `t(g z)` and `t(g^2 z)`.
pub proof fn lemma_constraints_agree_at_point(
    air: FibonacciAir,
    t: Seq<int>,
    g: int,
    v: Vec<Poly>,
    z: int,
)
    requires
        air.constraint_polys_spec(t, g, Ok::<Vec<Poly>, StarkError>(v)),
        is_invertible(z - 1),
        is_invertible(z - pow(g, (air.spec_trace_len() - 1) as nat) % p()),
    ensures
        poly_value(vals(v@[0]@), z) % p() == div_spec(poly_value(t, z) % p() - 1, z - 1),
        poly_value(vals(v@[1]@), z) % p() == div_spec(
            poly_value(t, z) % p() - air.spec_result().val(),
            z - pow(g, (air.spec_trace_len() - 1) as nat) % p(),
        ),
        exists|zf: Seq<int>|
            #[trigger] is_product(
                zf,
                zerofier_den(
                    pow(g, (air.spec_trace_len() - 1) as nat) % p(),
                    ((pow(g, (air.spec_trace_len() - 1) as nat) % p()) * inv_spec(g)) % p(),
                ),
                vanishing_poly(air.spec_trace_len()),
            ) && (poly_value(vals(v@[2]@), z) * poly_value(zf, z)) % p() == (poly_value(
                t,
                g * g * z,
            ) - poly_value(t, g * z) - poly_value(t, z)) % p(),
{
    let n = air.spec_trace_len();
    let lp = pow(g, (n - 1) as nat) % p();
    let first = poly_sub_spec(t, seq![1]);
    let last = poly_sub_spec(t, seq![air.spec_result().val()]);
    let zden = zerofier_den(lp, (lp * inv_spec(g)) % p());
    let znum = vanishing_poly(n);
    let tn = transition_numerator(t, g);
    let pt = poly_value(t, z);
    reveal_with_fuel(fsum, 2);
    lemma_pow0(z);
    // the first boundary
    lemma_product_evaluates(vals(v@[0]@), linear_factor(1), first, z);
    lemma_value_linear_factor(1, z);
    lemma_value_sub(t, seq![1], z);
    assert(poly_value(seq![1], z) == 1);
    let q0 = poly_value(vals(v@[0]@), z);
    lemma_mul_mod_noop_right(q0, poly_value(linear_factor(1), z), p());
    lemma_mul_mod_noop_right(q0, z - 1, p());
    lemma_congr_sub(pt, pt % p(), 1, 1);
    lemma_mod_twice(pt, p());
    lemma_cancel_factor(q0, z - 1, pt % p() - 1);
    // the last boundary
    let r = air.spec_result().val();
    lemma_product_evaluates(vals(v@[1]@), linear_factor(lp), last, z);
    lemma_value_linear_factor(lp, z);
    lemma_value_sub(t, seq![r], z);
    assert(poly_value(seq![r], z) == r * 1);
    let q1 = poly_value(vals(v@[1]@), z);
    lemma_mul_mod_noop_right(q1, poly_value(linear_factor(lp), z), p());
    lemma_mul_mod_noop_right(q1, z - lp, p());
    lemma_congr_sub(pt, pt % p(), r, r);
    lemma_cancel_factor(q1, z - lp, pt % p() - r);
    // the transition
    let zf = choose|zf: Seq<int>| #[trigger] is_product(zf, zden, znum) && is_product(vals(v@[2]@), zf, tn);
    lemma_product_evaluates(vals(v@[2]@), zf, tn, z);
    lemma_transition_value(t, g, z);
}

/// The transition polynomial of `t` takes at `z` the value `t(g^2 z) - t(g z) - t(z)`.
proof fn lemma_transition_value(t: Seq<int>, g: int, z: int)
    ensures
        poly_value(transition_numerator(t, g), z) % p() == (poly_value(t, g * g * z) - poly_value(
            t,
            g * z,
        ) - poly_value(t, z)) % p(),
{
    let pt = poly_value(t, z);
    let s1 = shift_spec(t, g);
    let s2 = shift_spec(s1, g);
    let d = poly_sub_spec(s2, s1);
    lemma_value_sub(d, t, z);
    lemma_value_sub(s2, s1, z);
    lemma_value_shift(s1, g, z);
    lemma_value_shift(t, g, g * z);
    lemma_value_shift(t, g, z);
    lemma_mul_is_associative(g, g, z);
    let a_ = poly_value(s2, z);
    let b_ = poly_value(s1, z);
    lemma_congr_sub(a_, poly_value(t, g * g * z), b_, poly_value(t, g * z));
    lemma_congr_sub(poly_value(d, z), a_ - b_, pt, pt);
    lemma_congr_sub(a_ - b_, poly_value(t, g * g * z) - poly_value(t, g * z), pt, pt);
}

/// On the domains that `StarkDomain::new` builds, the extension coset (the subgroup
/// shifted by the field generator) meets neither 1, nor the last trace point, nor a
/// root of `x^n - 1` for a trace length `n` that is no multiple of 15: every
/// denominator of `evaluate_constraints_on_lde` is invertible, and it can run as soon
/// as the extended trace covers the domain.
pub proof fn lemma_lde_ready(air: FibonacciAir, trace_lde: Seq<FpBabyBear>, domain: StarkDomain)
    requires
        air.spec_trace_len() >= 2,
        air.spec_trace_len() % 15 != 0,
        domain.trace_domain.log_size <= 27,
        domain.trace_domain.group_gen.val() == root_of_unity_spec(
            domain.trace_domain.log_size as nat,
        ),
        domain.lde_domain.log_size <= 27,
        domain.lde_domain.group_gen.val() == root_of_unity_spec(domain.lde_domain.log_size as nat),
        domain.lde_domain.offset.val() == GENERATOR,
        domain.lde_domain.size >= 1,
        trace_lde.len() >= domain.lde_domain.size,
        domain.lde_domain.size + 2 * domain.blowup_factor <= usize::MAX,
    ensures
        air.lde_ready(trace_lde, domain),
{
    let d = domain.lde_domain;
    let g = domain.trace_domain.group_gen.val();
    let n = air.spec_trace_len();
    lemma_root_in_two_group(domain.trace_domain.log_size as nat);
    lemma_root_in_two_group(d.log_size as nat);
    lemma_two_group_pow(g, (n - 1) as nat);
    let v = pow(g, (n - 1) as nat) % p();
    assert forall|i: int| 0 <= i < d.size implies {
        let x = #[trigger] ((pow(d.group_gen.val(), i as nat) * d.offset.val()) % p());
        &&& is_invertible(x - 1)
        &&& is_invertible(x - pow(g, (n - 1) as nat) % p())
        &&& is_invertible(pow(x, n) - 1)
    } by {
        let u = pow(d.group_gen.val(), i as nat);
        lemma_two_group_pow(d.group_gen.val(), i as nat);
        let x = (u * d.offset.val()) % p();
        lemma_mul_is_commutative(u, 31);
        assert(x == (31 * u) % p());
        // x is not 1
        lemma1_pow(pow2(27));
        lemma_small_mod(1, p() as nat);
        assert(in_two_group(1));
        lemma_coset_avoids_two_group(u, 1);
        lemma_nonzero_invertible(x - 1);
        // x is not the last trace point
        lemma_coset_avoids_two_group(u, v);
        lemma_mod_twice(pow(g, (n - 1) as nat), p());
        lemma_nonzero_invertible(x - v);
        // x^n is not 1
        lemma_coset_power_not_one(u, n);
        lemma_nonzero_invertible(pow(x, n) - 1);
    }
}

/// `x - root` divides `t - c` exactly when `t(root) = c`.
pub proof fn lemma_boundary_divides(t: Seq<int>, root: int, c: int)
    ensures
        divides(linear_factor(root), poly_sub_spec(t, seq![c])) <==> poly_value(t, root) % p()
            == c % p(),
{
    lemma_factor_theorem(poly_sub_spec(t, seq![c]), root);
    lemma_value_sub(t, seq![c], root);
    reveal_with_fuel(fsum, 2);
    lemma_pow0(root);
    assert(poly_value(seq![c], root) == c * 1);
    let v = poly_value(t, root);
    lemma_sub_mod_noop(v, c, p());
    lemma_mod_twice(v, p());
    lemma_mod_twice(c, p());
    if (v - c) % p() == 0 {
        lemma_add_mod_noop(v - c, c, p());
        lemma_small_mod(0, p() as nat);
    }
    if v % p() == c % p() {
        lemma_small_mod(0, p() as nat);
    }
}

/// The values 1, 1, 2, 3, 5, ... of a Fibonacci trace of `n` steps.
pub open spec fn fib_values(n: nat) -> Seq<int> {
    Seq::new(n, |i: int| fib_trace(i as nat))
}

proof fn lemma_fib_reduced(i: nat)
    ensures
        0 <= fib_trace(i) < p(),
{
}

/// `x^n - 1` takes the value `r^n - 1` at `r`.
proof fn lemma_vanishing_value(n: nat, r: int)
    requires
        n >= 1,
    ensures
        poly_value(vanishing_poly(n), r) % p() == (pow(r, n) - 1) % p(),
{
    let v = vanishing_poly(n);
    let f = |i: int| v[i] * pow(r, i as nat);
    assert(fsum(n + 1, f) == fsum(n, f) + f(n as int));
    lemma_fsum_drop_first((n - 1) as nat, f);
    assert forall|i: int| 0 <= i < n - 1 implies #[trigger] f(i + 1) == 0 by {
        assert(v[i + 1] == 0);
    }
    lemma_fsum_zeros((n - 1) as nat, |i: int| f(i + 1));
    lemma_pow0(r);
    assert(f(0) == p() - 1);
    assert(f(n as int) == pow(r, n));
    lemma_mod_add_multiples_vanish(pow(r, n) - 1, p());
}

/// `(g^a)^n = 1` when `g^n = 1`.
proof fn lemma_power_of_root(g: int, a: nat, n: nat)
    requires
        pow(g, n) % p() == 1,
    ensures
        pow(pow(g, a), n) % p() == 1,
        pow(pow(g, a) % p(), n) % p() == 1,
{
    lemma_pow_multiplies(g, a, n);
    lemma_pow_multiplies(g, n, a);
    lemma_mul_is_commutative(a as int, n as int);
    lemma_pow_mod_noop(pow(g, n), a, p());
    lemma1_pow(a);
    lemma_small_mod(1, p() as nat);
    lemma_pow_mod_noop(pow(g, a), n, p());
}

/// An honest Fibonacci trace meets both boundary constraints, and the zerofier exists:
/// for a trace of n = 2^lg >= 2 steps whose claimed result is its last value, the trace
/// polynomial (the inverse transform of the trace values) takes 1 at 1 and the result at
/// the last trace point, the trace generator is invertible, and
/// `(x - g^(n-1)) (x - g^(n-2))` divides `x^n - 1`. So for that polynomial
/// `get_constraint_polynomials` either succeeds or fails on the transition division.
proof fn lemma_honest_trace_boundaries(air: FibonacciAir, lg: nat)
    requires
        1 <= lg <= 27,
        air.spec_trace_len() == pow2(lg),
        air.spec_result().val() == fib_trace((pow2(lg) - 1) as nat),
    ensures
        ({
            let n = air.spec_trace_len();
            let g = root_of_unity_spec(lg);
            let t = ntt_of(fib_values(n), true);
            let lp = pow(g, (n - 1) as nat) % p();
            &&& is_invertible(g)
            &&& poly_value(t, 1) % p() == 1
            &&& poly_value(t, lp) % p() == air.spec_result().val()
            &&& divides(zerofier_den(lp, (lp * inv_spec(g)) % p()), vanishing_poly(n))
            &&& forall|r: Result<Vec<Poly>, StarkError>|
                #[trigger] air.constraint_polys_spec(t, g, r) ==> (r is Ok || r == Err::<
                    Vec<Poly>,
                    StarkError,
                >(StarkError::TransitionRemainder))
        }),
{
    let n = air.spec_trace_len();
    let g = root_of_unity_spec(lg);
    let fv = fib_values(n);
    let t = ntt_of(fv, true);
    let lp = pow(g, (n - 1) as nat) % p();
    lemma_root_of_unity(lg);
    lemma2_to64();
    lemma_pow2_pos(lg);
    assert forall|i: int| 0 <= i < fv.len() implies 0 <= #[trigger] fv[i] < p() by {
        lemma_fib_reduced(i as nat);
    }
    // g is invertible: g * g^(n-1) = g^n = 1
    let h1 = pow(g, (n - 1) as nat);
    lemma_pow_adds(g, 1, (n - 1) as nat);
    lemma_pow1(g);
    lemma_mul_mod_noop_right(g, h1, p());
    lemma_mod_bound(h1, p());
    assert((g * (h1 % p())) % p() == 1);
    assert(is_invertible(g));
    // the two boundary values
    lemma_intt_interpolates(fv, lg, 0);
    lemma_pow0(g);
    lemma_intt_interpolates(fv, lg, (n - 1) as nat);
    lemma_value_arg_mod(t, h1);
    // the zerofier: x^n - 1 vanishes at r1 = g^(n-1) and r2 = g^(n-2)
    let r1 = lp;
    let r2 = (lp * inv_spec(g)) % p();
    let h2 = pow(g, (n - 2) as nat);
    lemma_pow_adds(g, (n - 2) as nat, 1);
    assert(h1 == h2 * g);
    lemma_inverse_spec(g);
    assert(r2 == h2 % p()) by {
        lemma_mul_mod_noop_left(h1, inv_spec(g), p());
        lemma_mul_is_associative(h2, g, inv_spec(g));
        lemma_mul_mod_noop_right(h2, g * inv_spec(g), p());
        assert(h2 * 1 == h2);
    }
    lemma_power_of_root(g, (n - 1) as nat, n);
    lemma_power_of_root(g, (n - 2) as nat, n);
    lemma_vanishing_value(n, r1);
    lemma_vanishing_value(n, r2);
    lemma_small_mod(0, p() as nat);
    lemma_sub_mod_noop(pow(r1, n), 1, p());
    lemma_sub_mod_noop(pow(r2, n), 1, p());
    lemma_small_mod(1, p() as nat);
    let znum = vanishing_poly(n);
    lemma_factor_theorem(znum, r1);
    let q1 = choose|q: Seq<int>| #[trigger] is_product(q, linear_factor(r1), znum);
    // q1 vanishes at r2, since r2 - r1 = g^(n-2) (1 - g) is invertible
    assert((r2 - r1) % p() != 0) by {
        if (r2 - r1) % p() == 0 {
            lemma_mul_mod_noop_right(h2, g, p());
            lemma_sub_mod_noop(h2, h2 * g, p());
            lemma_mul_is_distributive_sub(h2, 1, g);
            assert(h2 - h2 * g == h2 * (1 - g));
            lemma_mod_twice(h2, p());
            lemma_mod_twice(h1, p());
            assert((h2 * (1 - g)) % p() == 0);
            lemma_pow_invertible(g, (n - 2) as nat);
            lemma_mul_is_commutative(h2, 1 - g);
            lemma_cancel_invertible(1 - g, h2);
            assert(g == 1);
            lemma1_pow(pow2((lg - 1) as nat));
        }
    }
    lemma_product_evaluates(q1, linear_factor(r1), znum, r2);
    lemma_value_linear_factor(r1, r2);
    lemma_mul_mod_noop_right(poly_value(q1, r2), poly_value(linear_factor(r1), r2), p());
    lemma_mul_mod_noop_right(poly_value(q1, r2), r2 - r1, p());
    lemma_nonzero_invertible(r2 - r1);
    lemma_cancel_invertible(poly_value(q1, r2), r2 - r1);
    lemma_factor_theorem(q1, r2);
    let q2 = choose|q: Seq<int>| #[trigger] is_product(q, linear_factor(r2), q1);
    lemma_two_factors(q2, q1, znum, r1, r2);
    assert(is_product(q2, zerofier_den(r1, r2), znum));
}

/// `1 * 1 = 1`: one is invertible.
proof fn lemma_one_is_invertible()
    ensures
        is_invertible(1),
{
    lemma_small_mod(1, p() as nat);
    assert((1int * 1int) % p() == 1);
}

/// The product of the constant polynomial 1 with `w`.
proof fn lemma_conv_one(w: Seq<int>, t: int)
    requires
        t >= 0,
    ensures
        conv(seq![1int], w, t) % p() == coef(w, t) % p(),
{
    let f = |i: int| coef(seq![1int], i) * coef(w, t - i);
    assert forall|i: int| 0 <= i < t + 1 && i != 0 implies #[trigger] f(i) % p() == 0 by {
        assert(coef(seq![1int], i) == 0);
        lemma_small_mod(0, p() as nat);
    }
    assert(f(0) == coef(w, t));
    lemma_fsum_at_most_one((t + 1) as nat, f, 0, coef(w, t));
}

/// A polynomial of degree n with leading coefficient 1 that divides `x^n - 1` is
/// `x^n - 1`.
proof fn lemma_monic_divisor_of_vanishing(w: Seq<int>, n: nat)
    requires
        n >= 1,
        w.len() == n + 1,
        w[n as int] == 1,
        divides(w, vanishing_poly(n)),
    ensures
        poly_eq(w, vanishing_poly(n)),
{
    let znum = vanishing_poly(n);
    let q = choose|q: Seq<int>| #[trigger] is_product(q, w, znum);
    let r2 = Seq::new(n, |i: int| znum[i] - w[i]);
    let one = seq![1int];
    let e = Seq::<int>::empty();
    assert forall|t: int| t >= 0 implies (#[trigger] conv(q, w, t) + coef(e, t)) % p() == (conv(
        one,
        w,
        t,
    ) + coef(r2, t)) % p() by {
        assert(conv(q, w, t) % p() == coef(znum, t) % p());
        lemma_conv_one(w, t);
        let y = conv(one, w, t);
        let rr = coef(r2, t);
        lemma_add_mod_noop(y, rr, p());
        lemma_add_mod_noop(coef(w, t), rr, p());
        assert(coef(w, t) + rr == coef(znum, t));
        assert(conv(q, w, t) + coef(e, t) == conv(q, w, t));
    }
    lemma_one_is_invertible();
    lemma_division_unique(q, e, one, r2, w);
    assert forall|t: int|
        #![trigger coef(w, t)]
        #![trigger coef(znum, t)]
        coef(w, t) % p() == coef(znum, t) % p() by {
        if 0 <= t < n {
            assert(coef(r2, t) % p() == coef(e, t) % p());
            lemma_small_mod(0, p() as nat);
            lemma_add_mod_noop(znum[t] - w[t], w[t], p());
            lemma_mod_twice(w[t], p());
        }
    }
}

/// The transition polynomial of the honest trace polynomial vanishes at the trace
/// points `g^0, ..., g^(n-3)`: there the trace values obey the Fibonacci rule.
proof fn lemma_honest_transition_vanishes(lg: nat, i: nat)
    requires
        1 <= lg <= 27,
        i + 2 < pow2(lg),
    ensures
        poly_value(
            transition_numerator(ntt_of(fib_values(pow2(lg)), true), root_of_unity_spec(lg)),
            root_pow(root_of_unity_spec(lg), i),
        ) % p() == 0,
{
    let n = pow2(lg);
    let g = root_of_unity_spec(lg);
    let fv = fib_values(n);
    let t = ntt_of(fv, true);
    let z = root_pow(g, i);
    assert forall|k: int| 0 <= k < fv.len() implies 0 <= #[trigger] fv[k] < p() by {
        lemma_fib_reduced(k as nat);
    }
    lemma_transition_value(t, g, z);
    // g z and g^2 z are the next two trace points
    lemma_pow1(g);
    lemma_pow_adds(g, i, 1);
    lemma_pow_adds(g, i + 1, 1);
    lemma_mul_mod_noop_right(g, pow(g, i), p());
    lemma_mul_mod_noop_right(g * g, pow(g, i), p());
    lemma_mul_is_commutative(g, pow(g, i));
    lemma_mul_is_commutative(g, pow(g, i + 1));
    lemma_mul_is_associative(g, g, pow(g, i));
    assert((g * z) % p() == pow(g, i + 1) % p());
    assert((g * g * z) % p() == pow(g, i + 2) % p());
    lemma_value_arg_mod(t, g * z);
    lemma_value_arg_mod(t, g * g * z);
    lemma_value_arg_mod(t, pow(g, i + 1));
    lemma_value_arg_mod(t, pow(g, i + 2));
    lemma_value_arg_mod(t, pow(g, i));
    lemma_intt_interpolates(fv, lg, i);
    lemma_intt_interpolates(fv, lg, i + 1);
    lemma_intt_interpolates(fv, lg, i + 2);
    let a = poly_value(t, g * g * z);
    let b = poly_value(t, g * z);
    let c = poly_value(t, z);
    let f0 = fv[i as int];
    let f1 = fv[i + 1int];
    let f2 = fv[i + 2int];
    assert(f2 == (f1 + f0) % p());
    lemma_small_mod(f0 as nat, p() as nat);
    lemma_small_mod(f1 as nat, p() as nat);
    lemma_small_mod(f2 as nat, p() as nat);
    lemma_congr_sub(a, f2, b, f1);
    lemma_congr_sub(a - b, f2 - f1, c, f0);
    lemma_sub_mod_noop(f1 + f0, f1 + f0, p());
    lemma_mod_twice(f1 + f0, p());
    lemma_small_mod(0, p() as nat);
    assert(f2 - f1 - f0 == (f1 + f0) % p() - (f1 + f0));
}

/// An honest Fibonacci trace is accepted: for a trace of n = 2^lg >= 2 steps whose
/// claimed result is its last value, every constraint the trace polynomial (the inverse
/// transform of the trace values) must meet over the trace domain of order n holds, so
/// `get_constraint_polynomials` returns the three constraint quotients and no error.
pub proof fn lemma_honest_trace_accepted(air: FibonacciAir, lg: nat)
    requires
        1 <= lg <= 27,
        air.spec_trace_len() == pow2(lg),
        air.spec_result().val() == fib_trace((pow2(lg) - 1) as nat),
    ensures
        forall|r: Result<Vec<Poly>, StarkError>|
            #[trigger] air.constraint_polys_spec(
                ntt_of(fib_values(pow2(lg)), true),
                root_of_unity_spec(lg),
                r,
            ) ==> r is Ok,
{
    let n = air.spec_trace_len();
    let g = root_of_unity_spec(lg);
    let t = ntt_of(fib_values(n), true);
    let lp = pow(g, (n - 1) as nat) % p();
    let zden = zerofier_den(lp, (lp * inv_spec(g)) % p());
    let znum = vanishing_poly(n);
    let tn = transition_numerator(t, g);
    lemma_honest_trace_boundaries(air, lg);
    lemma_root_of_unity(lg);
    lemma_pow2_unfold(lg);
    lemma_pow2_pos((lg - 1) as nat);
    assert(n >= 2);
    // the trace points are distinct
    assert forall|i: nat, j: nat| i < j < n implies (#[trigger] root_pow(g, j) - #[trigger] root_pow(
        g,
        i,
    )) % p() != 0 by {
        lemma_root_powers_distinct(lg, i, j);
    }
    // the transition vanishes on all trace points but the last two
    assert forall|i: nat| i < (n - 2) as nat implies #[trigger] poly_value(tn, root_pow(g, i)) % p()
        == 0 by {
        lemma_honest_transition_vanishes(lg, i);
    }
    let m = (n - 2) as nat;
    lemma_vanishing_divisible(g, m, tn);
    // x^n - 1 vanishes on all trace points, so it is their root product
    assert forall|i: nat| i < n implies #[trigger] poly_value(znum, root_pow(g, i)) % p() == 0 by {
        lemma_vanishing_value(n, root_pow(g, i));
        lemma_power_of_root(g, i, n);
        lemma_sub_mod_noop(pow(root_pow(g, i), n), 1, p());
        lemma_small_mod(1, p() as nat);
        lemma_small_mod(0, p() as nat);
    }
    lemma_vanishing_divisible(g, n, znum);
    lemma_root_product_step(g, n);
    lemma_root_product_step(g, (n - 1) as nat);
    lemma_monic_divisor_of_vanishing(root_product(g, n), n);
    // the root product over all points is the one over the first n - 2 times the zerofier
    let r1 = root_pow(g, (n - 1) as nat);
    let r2 = root_pow(g, m);
    assert((lp * inv_spec(g)) % p() == r2) by {
        let h1 = pow(g, (n - 1) as nat);
        let h2 = pow(g, m);
        lemma_pow_adds(g, m, 1);
        lemma_pow1(g);
        assert(h1 == h2 * g);
        lemma_inverse_spec(g);
        lemma_mul_mod_noop_left(h1, inv_spec(g), p());
        lemma_mul_is_associative(h2, g, inv_spec(g));
        lemma_mul_mod_noop_right(h2, g * inv_spec(g), p());
        assert(h2 * 1 == h2);
    }
    assert(zden == zerofier_den(r1, r2));
    let w = root_product(g, m);
    lemma_two_factors(w, root_product(g, (n - 1) as nat), root_product(g, n), r1, r2);
    assert forall|k: int|
        #![trigger coef(w, k)]
        coef(w, k) % p() == coef(w, k) % p() by {}
    assert forall|k: int|
        #![trigger coef(zden, k)]
        coef(zden, k) % p() == coef(zden, k) % p() by {}
    lemma_is_product_congr(w, w, zden, zden, root_product(g, n), znum);
    assert(is_product(w, zden, znum) && divides(w, tn));
}

/// Squaring the root of unity of order 2^l a times gives the root of order 2^(l-a).
proof fn lemma_root_pow2(l: nat, a: nat)
    requires
        a <= l <= 27,
    ensures
        pow(root_of_unity_spec(l), pow2(a)) % p() == root_of_unity_spec((l - a) as nat),
{
    let r = TWO_ADIC_ROOT_OF_UNITY as int;
    let e = pow2((27 - l) as nat);
    lemma_pow_mod_noop(pow(r, e), pow2(a), p());
    lemma_pow_multiplies(r, e, pow2(a));
    lemma_pow2_adds((27 - l) as nat, a);
    assert((27 - l) as nat + a == (27 - (l - a) as nat) as nat);
}

/// Exponents of an element of order dividing `size` count modulo `size`.
proof fn lemma_pow_wrap(w: int, size: nat, j: nat)
    requires
        size > 0,
        pow(w, size) % p() == 1,
    ensures
        pow(w, j % size) % p() == pow(w, j) % p(),
{
    let q = j / size;
    let r = j % size;
    lemma_fundamental_div_mod(j as int, size as int);
    lemma_pow_adds(w, size * q, r);
    lemma_pow_multiplies(w, size, q);
    lemma_pow_mod_noop(pow(w, size), q, p());
    lemma1_pow(q);
    lemma_small_mod(1, p() as nat);
    lemma_mul_mod_noop_left(pow(w, size * q), pow(w, r), p());
    assert(1 * pow(w, r) == pow(w, r));
}

/// The quadratic `(x - r1) (x - r2)` takes the product of the differences.
proof fn lemma_zerofier_den_value(r1: int, r2: int, x: int)
    ensures
        poly_value(zerofier_den(r1, r2), x) % p() == ((x - r1) * (x - r2)) % p(),
{
    let z = zerofier_den(r1, r2);
    let l1 = linear_factor(r1);
    let l2 = linear_factor(r2);
    assert forall|k: int| k >= 0 implies #[trigger] conv(l1, l2, k) % p() == coef(z, k) % p() by {
        if k < 3 {
            lemma_mod_twice(conv(l1, l2, k), p());
        } else {
            lemma_conv_beyond(l1, l2, k);
            lemma_small_mod(0, p() as nat);
        }
    }
    lemma_product_evaluates(l1, l2, z, x);
    lemma_value_linear_factor(r1, x);
    lemma_value_linear_factor(r2, x);
    lemma_mul_mod_noop(poly_value(l1, x), poly_value(l2, x), p());
    lemma_mul_mod_noop(x - r1, x - r2, p());
}

/// Dividing a product back: `q z = T` and `z d = V` with `V` invertible give
/// `q = T d / V`, all modulo p.
proof fn lemma_quotient_times_zerofier(q: int, z: int, tv: int, d: int, v: int)
    requires
        (q * z) % p() == tv % p(),
        (z * d) % p() == v % p(),
        is_invertible(v),
    ensures
        q % p() == (tv * div_spec(d, v)) % p(),
{
    let iv = inv_spec(v);
    lemma_inverse_spec(v);
    lemma_mul_mod_noop_right(tv, d * iv, p());
    lemma_mul_mod_noop_left(tv, d * iv, p());
    lemma_mul_mod_noop_left(q * z, d * iv, p());
    assert((q * z) * (d * iv) == q * ((z * d) * iv)) by (nonlinear_arith);
    lemma_mul_mod_noop_right(q, (z * d) * iv, p());
    lemma_mul_mod_noop_left(z * d, iv, p());
    lemma_mul_mod_noop_left(v, iv, p());
    lemma_mul_mod_noop_right(q, v * iv, p());
    assert(q * 1 == q);
}

/// One blowup further on along the extension coset is the point times the trace
/// generator: `x_{(i + bf) mod size} = g x_i` when `w^bf = g` and `w^size = 1`.
proof fn lemma_lde_step(w: int, g: int, size: nat, bf: nat, i: int)
    requires
        size > 0,
        0 <= i,
        pow(w, bf) % p() == g,
        pow(w, size) % p() == 1,
    ensures
        (pow(w, ((i + bf) % (size as int)) as nat) * GENERATOR) % p() == (g * ((pow(w, i as nat)
            * GENERATOR) % p())) % p(),
{
    let j = ((i + bf) % (size as int)) as nat;
    let u = pow(w, i as nat);
    lemma_pow_wrap(w, size, (i + bf) as nat);
    lemma_pow_adds(w, i as nat, bf);
    lemma_mul_mod_noop_left(pow(w, j), GENERATOR as int, p());
    lemma_mul_mod_noop_left(pow(w, (i + bf) as nat), GENERATOR as int, p());
    lemma_mul_mod_noop_right(u, pow(w, bf), p());
    lemma_mul_mod_noop_left(u * pow(w, bf), GENERATOR as int, p());
    lemma_mul_mod_noop_left(u * g, GENERATOR as int, p());
    lemma_mod_twice(u * g, p());
    lemma_mul_mod_noop_right(g, u * GENERATOR, p());
    assert(u * g * GENERATOR == g * (u * GENERATOR)) by (nonlinear_arith);
}

/// At one point `x` of the extension coset, the transition value that the prover
/// computes from the extended trace is the transition quotient polynomial's value.
proof fn lemma_lde_transition_at(
    air: FibonacciAir,
    t: Seq<int>,
    v: Vec<Poly>,
    g: int,
    x: int,
    a0: int,
    a1: int,
    a2: int,
    c: int,
)
    requires
        air.spec_trace_len() >= 2,
        air.constraint_polys_spec(t, g, Ok::<Vec<Poly>, StarkError>(v)),
        is_invertible(x - 1),
        is_invertible(x - pow(g, (air.spec_trace_len() - 1) as nat) % p()),
        is_invertible(pow(x, air.spec_trace_len()) - 1),
        ((pow(g, (air.spec_trace_len() - 1) as nat) % p()) * inv_spec(g)) % p() == pow(
            g,
            (air.spec_trace_len() - 2) as nat,
        ) % p(),
        a0 == poly_value(t, x) % p(),
        a1 == poly_value(t, g * x) % p(),
        a2 == poly_value(t, g * g * x) % p(),
        c == ((a2 - a1 - a0) * div_spec(
            (x - pow(g, (air.spec_trace_len() - 1) as nat) % p()) * (x - pow(
                g,
                (air.spec_trace_len() - 2) as nat,
            ) % p()),
            pow(x, air.spec_trace_len()) - 1,
        )) % p(),
    ensures
        c == poly_value(vals(v@[2]@), x) % p(),
{
    let n = air.spec_trace_len();
    let lp = pow(g, (n - 1) as nat) % p();
    let r2 = pow(g, (n - 2) as nat) % p();
    let zden = zerofier_den(lp, (lp * inv_spec(g)) % p());
    let znum = vanishing_poly(n);
    lemma_constraints_agree_at_point(air, t, g, v, x);
    let zf = choose|zf: Seq<int>|
        #[trigger] is_product(zf, zden, znum) && (poly_value(vals(v@[2]@), x) * poly_value(zf, x))
            % p() == (poly_value(t, g * g * x) - poly_value(t, g * x) - poly_value(t, x)) % p();
    lemma_product_evaluates(zf, zden, znum, x);
    lemma_vanishing_value(n, x);
    lemma_zerofier_den_value(lp, r2, x);
    let zd = (x - lp) * (x - r2);
    let vv = pow(x, n) - 1;
    let tv = poly_value(t, g * g * x) - poly_value(t, g * x) - poly_value(t, x);
    lemma_mul_mod_noop_right(poly_value(zf, x), poly_value(zden, x), p());
    lemma_mul_mod_noop_right(poly_value(zf, x), zd, p());
    lemma_quotient_times_zerofier(poly_value(vals(v@[2]@), x), poly_value(zf, x), tv, zd, vv);
    // the differences of the extended values are the transition value
    lemma_mod_twice(poly_value(t, g * g * x), p());
    lemma_mod_twice(poly_value(t, g * x), p());
    lemma_mod_twice(poly_value(t, x), p());
    lemma_congr_sub(a2, poly_value(t, g * g * x), a1, poly_value(t, g * x));
    lemma_congr_sub(a2 - a1, poly_value(t, g * g * x) - poly_value(t, g * x), a0, poly_value(t, x));
    lemma_mul_mod_noop_left(a2 - a1 - a0, div_spec(zd, vv), p());
    lemma_mul_mod_noop_left(tv, div_spec(zd, vv), p());
}

/// The constraint values that the prover computes over the extension domain are the
/// constraint quotient polynomials evaluated there: when the extended trace holds the
/// values of the trace polynomial `t` at the points of an extension coset of the shape
/// that `StarkDomain::new` builds (the subgroup of order 2^le shifted by the field
/// generator, over a trace subgroup of order n = 2^lt >= 2, blowup 2^(le - lt)), and
/// `v` are the constraint polynomials of `t`, then at each point `x` of the coset the
/// three constraint values are `v[0](x)`, `v[1](x)` and `v[2](x)`.
pub proof fn lemma_lde_constraints_are_quotients(
    air: FibonacciAir,
    t: Seq<int>,
    v: Vec<Poly>,
    trace_lde: Seq<FpBabyBear>,
    domain: StarkDomain,
    cols: Vec<Vec<FpBabyBear>>,
)
    requires
        1 <= domain.trace_domain.log_size <= domain.lde_domain.log_size <= 27,
        domain.trace_domain.group_gen.val() == root_of_unity_spec(
            domain.trace_domain.log_size as nat,
        ),
        domain.lde_domain.group_gen.val() == root_of_unity_spec(domain.lde_domain.log_size as nat),
        domain.lde_domain.size == pow2(domain.lde_domain.log_size as nat),
        domain.lde_domain.offset.val() == GENERATOR,
        domain.blowup_factor == pow2(
            (domain.lde_domain.log_size - domain.trace_domain.log_size) as nat,
        ),
        air.spec_trace_len() == pow2(domain.trace_domain.log_size as nat),
        trace_lde.len() == domain.lde_domain.size,
        forall|i: int|
            0 <= i < domain.lde_domain.size ==> #[trigger] trace_lde[i].val() == poly_value(
                t,
                (pow(domain.lde_domain.group_gen.val(), i as nat) * domain.lde_domain.offset.val())
                    % p(),
            ) % p(),
        air.constraint_polys_spec(
            t,
            domain.trace_domain.group_gen.val(),
            Ok::<Vec<Poly>, StarkError>(v),
        ),
        air.lde_constraints_spec(trace_lde, domain, cols),
    ensures
        forall|k: int, i: int|
            0 <= k < 3 && 0 <= i < domain.lde_domain.size ==> #[trigger] cols@[k]@[i].val()
                == poly_value(
                vals(v@[k]@),
                (pow(domain.lde_domain.group_gen.val(), i as nat) * domain.lde_domain.offset.val())
                    % p(),
            ) % p(),
{
    let d = domain.lde_domain;
    let lt = domain.trace_domain.log_size as nat;
    let le = d.log_size as nat;
    let lb = (le - lt) as nat;
    let n = air.spec_trace_len();
    let g = domain.trace_domain.group_gen.val();
    let w = d.group_gen.val();
    let size = d.size as nat;
    let bf = domain.blowup_factor as nat;
    let lp = pow(g, (n - 1) as nat) % p();
    lemma_pow2_pos(lt);
    lemma_pow2_pos(lb);
    lemma_pow2_adds(lt, lb);
    assert(size == n * bf);
    lemma_pow2_unfold(lt);
    lemma_pow2_pos((lt - 1) as nat);
    assert(n >= 2);
    // the coset avoids every denominator
    assert(n % 15 != 0) by {
        if n % 15 == 0 {
            lemma_odd_divides(15, lt, 1);
        }
    }
    lemma2_to64();
    lemma_pow2_strictly_increases(27, 32);
    assert(size <= 0x800_0000) by {
        if le < 27 {
            lemma_pow2_strictly_increases(le, 27);
        }
    }
    assert(bf <= size) by (nonlinear_arith)
        requires
            size == n * bf,
            n >= 2,
    ;
    lemma_lde_ready(air, trace_lde, domain);
    // w^bf = g and w^size = 1
    lemma_root_pow2(le, lb);
    lemma_root_of_unity(le);
    lemma_root_of_unity(lt);
    // g^(n-2) is the second zerofier root
    assert((lp * inv_spec(g)) % p() == pow(g, (n - 2) as nat) % p()) by {
        let h1 = pow(g, (n - 1) as nat);
        let h2 = pow(g, (n - 2) as nat);
        lemma_pow_adds(g, (n - 2) as nat, 1);
        lemma_pow1(g);
        assert(h1 == h2 * g);
        lemma_pow_adds(g, 1, (n - 1) as nat);
        lemma_mul_mod_noop_right(g, h1, p());
        lemma_mod_bound(h1, p());
        assert((g * (h1 % p())) % p() == 1);
        lemma_inverse_spec(g);
        lemma_mul_mod_noop_left(h1, inv_spec(g), p());
        lemma_mul_is_associative(h2, g, inv_spec(g));
        lemma_mul_mod_noop_right(h2, g * inv_spec(g), p());
        assert(h2 * 1 == h2);
    }
    assert forall|k: int, i: int|
        0 <= k < 3 && 0 <= i < size implies #[trigger] cols@[k]@[i].val() == poly_value(
        vals(v@[k]@),
        (pow(w, i as nat) * d.offset.val()) % p(),
    ) % p() by {
        if k < 2 {
            lemma_lde_point_boundary(air, t, v, trace_lde, domain, cols, k, i);
        } else {
            lemma_lde_point_transition(air, t, v, trace_lde, domain, cols, k, i);
        }
    }
}

/// The points one and two blowups further on along the extension coset.
proof fn lemma_lde_indices(w: int, g: int, size: nat, bf: nat, i: int)
    requires
        size > 0,
        0 <= i,
        pow(w, bf) % p() == g,
        pow(w, size) % p() == 1,
    ensures
        (pow(w, ((i + bf) % (size as int)) as nat) * GENERATOR) % p() == (g * ((pow(w, i as nat)
            * GENERATOR) % p())) % p(),
        (pow(w, ((i + 2 * bf) % (size as int)) as nat) * GENERATOR) % p() == (g * g * ((pow(
            w,
            i as nat,
        ) * GENERATOR) % p())) % p(),
{
    let x = (pow(w, i as nat) * GENERATOR) % p();
    let j1 = (i + bf) % (size as int);
    let j2 = (j1 + bf) % (size as int);
    lemma_lde_step(w, g, size, bf, i);
    lemma_lde_step(w, g, size, bf, j1);
    assert(j2 == (i + 2 * bf) % (size as int)) by {
        lemma_add_mod_noop(i + bf, bf as int, size as int);
        lemma_add_mod_noop(j1, bf as int, size as int);
        lemma_mod_twice(i + bf, size as int);
    }
    lemma_mul_mod_noop_right(g, g * x, p());
    lemma_mul_is_associative(g, g, x);
}

/// The two boundary columns of the law above, at one point.
#[verifier::spinoff_prover]
proof fn lemma_lde_point_boundary(
    air: FibonacciAir,
    t: Seq<int>,
    v: Vec<Poly>,
    trace_lde: Seq<FpBabyBear>,
    domain: StarkDomain,
    cols: Vec<Vec<FpBabyBear>>,
    k: int,
    i: int,
)
    requires
        air.spec_trace_len() >= 2,
        0 <= k < 2,
        0 <= i < domain.lde_domain.size,
        domain.lde_domain.offset.val() == GENERATOR,
        pow(domain.lde_domain.group_gen.val(), domain.blowup_factor as nat) % p()
            == domain.trace_domain.group_gen.val(),
        pow(domain.lde_domain.group_gen.val(), domain.lde_domain.size as nat) % p() == 1,
        ((pow(domain.trace_domain.group_gen.val(), (air.spec_trace_len() - 1) as nat) % p())
            * inv_spec(domain.trace_domain.group_gen.val())) % p() == pow(
            domain.trace_domain.group_gen.val(),
            (air.spec_trace_len() - 2) as nat,
        ) % p(),
        trace_lde.len() == domain.lde_domain.size,
        forall|j: int|
            0 <= j < domain.lde_domain.size ==> #[trigger] trace_lde[j].val() == poly_value(
                t,
                (pow(domain.lde_domain.group_gen.val(), j as nat) * domain.lde_domain.offset.val())
                    % p(),
            ) % p(),
        air.constraint_polys_spec(
            t,
            domain.trace_domain.group_gen.val(),
            Ok::<Vec<Poly>, StarkError>(v),
        ),
        air.lde_ready(trace_lde, domain),
        air.lde_constraints_spec(trace_lde, domain, cols),
    ensures
        cols@[k]@[i].val() == poly_value(
            vals(v@[k]@),
            (pow(domain.lde_domain.group_gen.val(), i as nat) * domain.lde_domain.offset.val())
                % p(),
        ) % p(),
{
    let d = domain.lde_domain;
    let g = domain.trace_domain.group_gen.val();
    let w = d.group_gen.val();
    let size = d.size as nat;
    let bf = domain.blowup_factor as nat;
    let x = (pow(w, i as nat) * d.offset.val()) % p();
    assert(trace_lde[i].val() == poly_value(t, x) % p());
    let pv = trace_lde[i].val();
    lemma_constraints_agree_at_point(air, t, g, v, x);
    if k == 0 {
        assert(cols@[0]@[i].val() == div_spec(pv - 1, x - 1));
    } else {
        assert(cols@[1]@[i].val() == div_spec(pv - air.spec_result().val(), x - air.last_point(domain)));
    }
}

/// The transition column of the law above, at one point.
#[verifier::spinoff_prover]
proof fn lemma_lde_point_transition(
    air: FibonacciAir,
    t: Seq<int>,
    v: Vec<Poly>,
    trace_lde: Seq<FpBabyBear>,
    domain: StarkDomain,
    cols: Vec<Vec<FpBabyBear>>,
    k: int,
    i: int,
)
    requires
        air.spec_trace_len() >= 2,
        k == 2,
        0 <= i < domain.lde_domain.size,
        domain.lde_domain.offset.val() == GENERATOR,
        pow(domain.lde_domain.group_gen.val(), domain.blowup_factor as nat) % p()
            == domain.trace_domain.group_gen.val(),
        pow(domain.lde_domain.group_gen.val(), domain.lde_domain.size as nat) % p() == 1,
        ((pow(domain.trace_domain.group_gen.val(), (air.spec_trace_len() - 1) as nat) % p())
            * inv_spec(domain.trace_domain.group_gen.val())) % p() == pow(
            domain.trace_domain.group_gen.val(),
            (air.spec_trace_len() - 2) as nat,
        ) % p(),
        trace_lde.len() == domain.lde_domain.size,
        forall|j: int|
            0 <= j < domain.lde_domain.size ==> #[trigger] trace_lde[j].val() == poly_value(
                t,
                (pow(domain.lde_domain.group_gen.val(), j as nat) * domain.lde_domain.offset.val())
                    % p(),
            ) % p(),
        air.constraint_polys_spec(
            t,
            domain.trace_domain.group_gen.val(),
            Ok::<Vec<Poly>, StarkError>(v),
        ),
        air.lde_ready(trace_lde, domain),
        air.lde_constraints_spec(trace_lde, domain, cols),
    ensures
        cols@[k]@[i].val() == poly_value(
            vals(v@[k]@),
            (pow(domain.lde_domain.group_gen.val(), i as nat) * domain.lde_domain.offset.val())
                % p(),
        ) % p(),
{
    let d = domain.lde_domain;
    let g = domain.trace_domain.group_gen.val();
    let w = d.group_gen.val();
    let size = d.size as nat;
    let bf = domain.blowup_factor as nat;
    let x = (pow(w, i as nat) * d.offset.val()) % p();
    assert(trace_lde[i].val() == poly_value(t, x) % p());
    let j1 = (i + bf) % (size as int);
    let j2 = (i + 2 * bf) % (size as int);
    lemma_lde_indices(w, g, size, bf, i);
    lemma_value_arg_mod(t, g * x);
    lemma_value_arg_mod(t, g * g * x);
    assert(trace_lde[j1].val() == poly_value(t, g * x) % p());
    assert(trace_lde[j2].val() == poly_value(t, g * g * x) % p());
    lemma_lde_transition_at(
        air,
        t,
        v,
        g,
        x,
        trace_lde[i].val(),
        trace_lde[j1].val(),
        trace_lde[j2].val(),
        cols@[2]@[i].val(),
    );
}

} // verus!
