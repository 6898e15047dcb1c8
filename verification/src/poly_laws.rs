//! Uniqueness of polynomial division over the field, and what it gives: a remainder
//! vanishes exactly when the divisor divides, and exact quotients are unique.
use crate::fft_laws::{
    fsum, lemma_fsum_add, lemma_fsum_at_most_one, lemma_fsum_congr, lemma_fsum_ext,
    lemma_fsum_prefix, lemma_fsum_scale, lemma_fsum_zeros,
};
use crate::field_babybear::{is_invertible, p};
use crate::poly::{
    all_zero, coef, conv, divides, is_product, lemma_trim_coef, linear_factor, poly_sub_spec, poly_value, shift_spec,
    trim,
};
use vstd::arithmetic::div_mod::*;
use vstd::arithmetic::mul::*;
use vstd::arithmetic::power::*;
use vstd::prelude::*;

verus! {

/// The coefficients of `q1` and `q2` at `j` agree modulo p.
pub open spec fn same_coef(q1: Seq<int>, q2: Seq<int>, j: int) -> bool {
    (coef(q1, j) - coef(q2, j)) % p() == 0
}

/// The product of two polynomials vanishes beyond their combined length, and everywhere
/// when the first one is empty.
pub proof fn lemma_conv_beyond(q: Seq<int>, b: Seq<int>, t: int)
    requires
        t >= 0,
        q.len() == 0 || t + 1 >= q.len() + b.len(),
    ensures
        conv(q, b, t) == 0,
{
    let f = |j: int| coef(q, j) * coef(b, t - j);
    assert forall|j: int| 0 <= j < t + 1 implies #[trigger] f(j) == 0 by {
        if j < q.len() {
            assert(coef(b, t - j) == 0);
        } else {
            assert(coef(q, j) == 0);
        }
    }
    lemma_fsum_zeros((t + 1) as nat, f);
}

/// The difference of two products with `b` is the product of the difference.
proof fn lemma_conv_diff(q1: Seq<int>, q2: Seq<int>, b: Seq<int>, t: int)
    requires
        t >= 0,
    ensures
        conv(q1, b, t) - conv(q2, b, t) == fsum(
            (t + 1) as nat,
            |j: int| (coef(q1, j) - coef(q2, j)) * coef(b, t - j),
        ),
{
    let n = (t + 1) as nat;
    let f1 = |j: int| coef(q1, j) * coef(b, t - j);
    let f2 = |j: int| coef(q2, j) * coef(b, t - j);
    let g = |j: int| f2(j) * (-1);
    lemma_fsum_scale(n, f2, g, -1);
    lemma_fsum_add(n, f1, g);
    let d = |j: int| (coef(q1, j) - coef(q2, j)) * coef(b, t - j);
    assert forall|j: int| 0 <= j < n implies #[trigger] d(j) == f1(j) + g(j) by {
        lemma_mul_is_distributive_sub_other_way(coef(b, t - j), coef(q1, j), coef(q2, j));
    }
    lemma_fsum_ext(n, |j: int| f1(j) + g(j), d);
}

/// A multiple of an invertible element vanishes only with the other factor.
pub(crate) proof fn lemma_cancel_invertible(d: int, c: int)
    requires
        is_invertible(c),
        (d * c) % p() == 0,
    ensures
        d % p() == 0,
{
    let x = choose|x: int| 0 <= x < p() && #[trigger] ((c * x) % p()) == 1;
    lemma_mul_mod_noop_left(d * c, x, p());
    lemma_mul_is_associative(d, c, x);
    lemma_mul_mod_noop_right(d, c * x, p());
    assert(0 * x == 0);
    assert(d * 1 == d);
}

/// `a % p == b % p` from `(a - b) % p == 0`.
proof fn lemma_congruent_from_diff(a: int, b: int)
    requires
        (a - b) % p() == 0,
    ensures
        a % p() == b % p(),
{
    lemma_add_mod_noop(a - b, b, p());
    lemma_mod_twice(b, p());
    lemma_small_mod(0, p() as nat);
}

/// Going down from the top, the two quotients agree at every index from `k` on.
proof fn lemma_quotients_agree_from(
    q1: Seq<int>,
    r1: Seq<int>,
    q2: Seq<int>,
    r2: Seq<int>,
    b: Seq<int>,
    k: int,
)
    requires
        b.len() >= 1,
        is_invertible(b.last()),
        r1.len() < b.len(),
        r2.len() < b.len(),
        forall|t: int|
            t >= 0 ==> (#[trigger] conv(q1, b, t) + coef(r1, t)) % p() == (conv(q2, b, t) + coef(
                r2,
                t,
            )) % p(),
        k >= 0,
    ensures
        forall|j: int| j >= k ==> #[trigger] same_coef(q1, q2, j),
    decreases q1.len() + q2.len() - k,
{
    if k >= q1.len() + q2.len() {
        assert forall|j: int| j >= k implies #[trigger] same_coef(q1, q2, j) by {
            assert(coef(q1, j) == 0 && coef(q2, j) == 0);
            lemma_small_mod(0, p() as nat);
        }
    } else {
        lemma_quotients_agree_from(q1, r1, q2, r2, b, k + 1);
        let m = b.len() - 1;
        let t = k + m;
        let lead = b[m];
        let dk = coef(q1, k) - coef(q2, k);
        let f = |j: int| (coef(q1, j) - coef(q2, j)) * coef(b, t - j);
        lemma_conv_diff(q1, q2, b, t);
        assert forall|j: int| 0 <= j < t + 1 && j != k implies #[trigger] f(j) % p() == 0 by {
            if j > k {
                assert(same_coef(q1, q2, j));
                lemma_mul_mod_noop_left(coef(q1, j) - coef(q2, j), coef(b, t - j), p());
                assert(0 * coef(b, t - j) == 0);
                lemma_small_mod(0, p() as nat);
            } else {
                assert(coef(b, t - j) == 0);
                assert((coef(q1, j) - coef(q2, j)) * 0 == 0);
                lemma_small_mod(0, p() as nat);
            }
        }
        assert(f(k) == dk * lead);
        lemma_fsum_at_most_one((t + 1) as nat, f, k, dk * lead);
        let c1 = conv(q1, b, t);
        let c2 = conv(q2, b, t);
        assert(coef(r1, t) == 0 && coef(r2, t) == 0);
        assert(c1 % p() == c2 % p());
        lemma_sub_mod_noop(c1, c2, p());
        lemma_small_mod(0, p() as nat);
        assert((dk * lead) % p() == 0);
        lemma_cancel_invertible(dk, lead);
        assert(same_coef(q1, q2, k));
    }
}

/// Division by a polynomial whose leading coefficient is invertible is unique: two
/// quotient and remainder pairs, with remainders shorter than the divisor, that give
/// the same polynomial agree coefficient by coefficient.
pub proof fn lemma_division_unique(q1: Seq<int>, r1: Seq<int>, q2: Seq<int>, r2: Seq<int>, b: Seq<int>)
    requires
        b.len() >= 1,
        is_invertible(b.last()),
        r1.len() < b.len(),
        r2.len() < b.len(),
        forall|t: int|
            t >= 0 ==> (#[trigger] conv(q1, b, t) + coef(r1, t)) % p() == (conv(q2, b, t) + coef(
                r2,
                t,
            )) % p(),
    ensures
        forall|i: int|
            #![trigger coef(q1, i)]
            #![trigger coef(q2, i)]
            coef(q1, i) % p() == coef(q2, i) % p(),
        forall|i: int|
            #![trigger coef(r1, i)]
            #![trigger coef(r2, i)]
            coef(r1, i) % p() == coef(r2, i) % p(),
{
    lemma_quotients_agree_from(q1, r1, q2, r2, b, 0);
    assert forall|i: int|
        #![trigger coef(q1, i)]
        #![trigger coef(q2, i)]
        coef(q1, i) % p() == coef(q2, i) % p() by {
        if i >= 0 {
            assert(same_coef(q1, q2, i));
            lemma_congruent_from_diff(coef(q1, i), coef(q2, i));
        }
    }
    assert forall|t: int|
        #![trigger coef(r1, t)]
        #![trigger coef(r2, t)]
        coef(r1, t) % p() == coef(r2, t) % p() by {
        if t >= 0 {
            let f1 = |j: int| coef(q1, j) * coef(b, t - j);
            let f2 = |j: int| coef(q2, j) * coef(b, t - j);
            assert forall|j: int| 0 <= j < t + 1 implies #[trigger] f1(j) % p() == f2(j) % p() by {
                lemma_mul_mod_noop_left(coef(q1, j), coef(b, t - j), p());
                lemma_mul_mod_noop_left(coef(q2, j), coef(b, t - j), p());
            }
            lemma_fsum_congr((t + 1) as nat, f1, f2);
            let c1 = conv(q1, b, t);
            let c2 = conv(q2, b, t);
            let x1 = c1 + coef(r1, t);
            let x2 = c2 + coef(r2, t);
            assert(x1 % p() == x2 % p());
            lemma_sub_mod_noop(x1, c1, p());
            lemma_sub_mod_noop(x2, c2, p());
            assert(x1 - c1 == coef(r1, t));
            assert(x2 - c2 == coef(r2, t));
        }
    }
}

/// Two exact quotients of `a` by `b` agree coefficient by coefficient.
pub proof fn lemma_quotient_unique(q1: Seq<int>, q2: Seq<int>, b: Seq<int>, a: Seq<int>)
    requires
        b.len() >= 1,
        is_invertible(b.last()),
        is_product(q1, b, a),
        is_product(q2, b, a),
    ensures
        forall|i: int|
            #![trigger coef(q1, i)]
            #![trigger coef(q2, i)]
            coef(q1, i) % p() == coef(q2, i) % p(),
{
    let e = Seq::<int>::empty();
    assert forall|t: int| t >= 0 implies (#[trigger] conv(q1, b, t) + coef(e, t)) % p() == (conv(
        q2,
        b,
        t,
    ) + coef(e, t)) % p() by {
        assert(conv(q1, b, t) % p() == coef(a, t) % p());
        assert(conv(q2, b, t) % p() == coef(a, t) % p());
    }
    lemma_division_unique(q1, e, q2, e, b);
}

/// Divisors that agree coefficient by coefficient divide the same polynomials.
pub proof fn lemma_divides_congr(b1: Seq<int>, b2: Seq<int>, a: Seq<int>)
    requires
        forall|i: int|
            #![trigger coef(b1, i)]
            #![trigger coef(b2, i)]
            coef(b1, i) % p() == coef(b2, i) % p(),
    ensures
        divides(b1, a) <==> divides(b2, a),
{
    if divides(b1, a) {
        let q = choose|q: Seq<int>| #[trigger] is_product(q, b1, a);
        lemma_product_congr(q, b1, b2, a);
    }
    if divides(b2, a) {
        let q = choose|q: Seq<int>| #[trigger] is_product(q, b2, a);
        lemma_product_congr(q, b2, b1, a);
    }
}

proof fn lemma_product_congr(q: Seq<int>, b1: Seq<int>, b2: Seq<int>, a: Seq<int>)
    requires
        forall|i: int|
            #![trigger coef(b1, i)]
            #![trigger coef(b2, i)]
            coef(b1, i) % p() == coef(b2, i) % p(),
        is_product(q, b1, a),
    ensures
        is_product(q, b2, a),
{
    assert forall|t: int| t >= 0 implies #[trigger] conv(q, b2, t) % p() == coef(a, t) % p() by {
        let f1 = |j: int| coef(q, j) * coef(b1, t - j);
        let f2 = |j: int| coef(q, j) * coef(b2, t - j);
        assert forall|j: int| 0 <= j < t + 1 implies #[trigger] f1(j) % p() == f2(j) % p() by {
            assert(coef(b1, t - j) % p() == coef(b2, t - j) % p());
            lemma_mul_mod_noop_right(coef(q, j), coef(b1, t - j), p());
            lemma_mul_mod_noop_right(coef(q, j), coef(b2, t - j), p());
        }
        lemma_fsum_congr((t + 1) as nat, f1, f2);
        assert(conv(q, b1, t) % p() == coef(a, t) % p());
    }
}

/// For a division `a = q * b + rem` with a short remainder of reduced coefficients, the
/// remainder vanishes exactly when `b` divides `a` (given an invertible leading
/// coefficient of `b` for the one direction).
pub proof fn lemma_remainder_zero_iff(q: Seq<int>, rem: Seq<int>, b: Seq<int>, a: Seq<int>)
    requires
        rem.len() < b.len(),
        forall|i: int| 0 <= i < rem.len() ==> 0 <= #[trigger] rem[i] < p(),
        forall|t: int|
            t >= 0 ==> (#[trigger] conv(q, b, t) + coef(rem, t)) % p() == coef(a, t) % p(),
    ensures
        all_zero(rem) ==> is_product(q, b, a),
        is_invertible(b.last()) && divides(b, a) ==> all_zero(rem),
{
    if all_zero(rem) {
        assert forall|t: int| t >= 0 implies #[trigger] conv(q, b, t) % p() == coef(a, t) % p() by {
            assert(coef(rem, t) == 0);
        }
    }
    if is_invertible(b.last()) && divides(b, a) {
        let q2 = choose|q2: Seq<int>| #[trigger] is_product(q2, b, a);
        let e = Seq::<int>::empty();
        assert forall|t: int| t >= 0 implies (#[trigger] conv(q, b, t) + coef(rem, t)) % p() == (
        conv(q2, b, t) + coef(e, t)) % p() by {
            assert(conv(q2, b, t) % p() == coef(a, t) % p());
            lemma_mod_twice(conv(q2, b, t), p());
        }
        lemma_division_unique(q, rem, q2, e, b);
        assert forall|i: int| 0 <= i < rem.len() implies #[trigger] rem[i] == 0 by {
            assert(coef(rem, i) % p() == coef(e, i) % p());
            lemma_small_mod(rem[i] as nat, p() as nat);
            lemma_small_mod(0, p() as nat);
        }
    }
}

/// A polynomial's value, summed over any number of terms past its coefficients.
pub proof fn lemma_poly_value_coef(s: Seq<int>, t: int, n: nat)
    requires
        n >= s.len(),
    ensures
        poly_value(s, t) == fsum(n, |i: int| coef(s, i) * pow(t, i as nat)),
{
    let f = |i: int| s[i] * pow(t, i as nat);
    let g = |i: int| coef(s, i) * pow(t, i as nat);
    assert forall|i: int| s.len() <= i < n implies #[trigger] g(i) == 0 by {}
    lemma_fsum_prefix(n, s.len(), g);
    lemma_fsum_ext(s.len(), f, g);
}

/// Coefficients that agree modulo p give values that agree modulo p.
pub proof fn lemma_poly_value_congr(s1: Seq<int>, s2: Seq<int>, t: int)
    requires
        s1.len() == s2.len(),
        forall|i: int| 0 <= i < s1.len() ==> #[trigger] s1[i] % p() == s2[i] % p(),
    ensures
        poly_value(s1, t) % p() == poly_value(s2, t) % p(),
{
    let f1 = |i: int| s1[i] * pow(t, i as nat);
    let f2 = |i: int| s2[i] * pow(t, i as nat);
    assert forall|i: int| 0 <= i < s1.len() implies #[trigger] f1(i) % p() == f2(i) % p() by {
        lemma_mul_mod_noop_left(s1[i], pow(t, i as nat), p());
        lemma_mul_mod_noop_left(s2[i], pow(t, i as nat), p());
    }
    lemma_fsum_congr(s1.len(), f1, f2);
}

/// Scaling every coefficient scales the value.
pub proof fn lemma_poly_value_scale(s: Seq<int>, c: int, t: int)
    ensures
        poly_value(Seq::new(s.len(), |i: int| s[i] * c), t) == poly_value(s, t) * c,
{
    let sc = Seq::new(s.len(), |i: int| s[i] * c);
    let f = |i: int| s[i] * pow(t, i as nat);
    let h = |i: int| sc[i] * pow(t, i as nat);
    assert forall|i: int| 0 <= i < s.len() implies #[trigger] h(i) == f(i) * c by {
        lemma_mul_is_associative(s[i], c, pow(t, i as nat));
        lemma_mul_is_commutative(c, pow(t, i as nat));
        lemma_mul_is_associative(s[i], pow(t, i as nat), c);
    }
    lemma_fsum_scale(s.len(), f, h, c);
}

/// Adding coefficientwise adds the values.
pub proof fn lemma_poly_value_add(a: Seq<int>, b: Seq<int>, n: nat, t: int)
    requires
        n >= a.len(),
        n >= b.len(),
    ensures
        poly_value(Seq::new(n, |i: int| coef(a, i) + coef(b, i)), t) == poly_value(a, t)
            + poly_value(b, t),
{
    let sm = Seq::new(n, |i: int| coef(a, i) + coef(b, i));
    let fa = |i: int| coef(a, i) * pow(t, i as nat);
    let fb = |i: int| coef(b, i) * pow(t, i as nat);
    lemma_poly_value_coef(a, t, n);
    lemma_poly_value_coef(b, t, n);
    lemma_fsum_add(n, fa, fb);
    let g = |i: int| sm[i] * pow(t, i as nat);
    assert forall|i: int| 0 <= i < n implies #[trigger] g(i) == fa(i) + fb(i) by {
        lemma_mul_is_distributive_add_other_way(pow(t, i as nat), coef(a, i), coef(b, i));
    }
    lemma_fsum_ext(n, g, |i: int| fa(i) + fb(i));
}

/// The product with a two-coefficient polynomial, one coefficient at a time.
pub(crate) proof fn lemma_conv_linear(a: Seq<int>, b0: int, k: int)
    requires
        k >= 0,
    ensures
        conv(a, seq![b0, 1], k) == coef(a, k) * b0 + coef(a, k - 1),
{
    let b = seq![b0, 1];
    let f = |i: int| coef(a, i) * coef(b, k - i);
    assert(conv(a, b, k) == fsum((k + 1) as nat, f));
    assert(coef(b, 1) == 1);
    assert(coef(b, 0) == b0);
    if k == 0 {
        assert(fsum(1, f) == fsum(0, f) + f(0));
        assert(f(0) == coef(a, 0) * b0);
        assert(coef(a, -1) == 0);
    } else {
        assert(f(k) == coef(a, k) * b0);
        assert(f(k - 1) == coef(a, k - 1) * 1);
        assert forall|i: int| 0 <= i < k - 1 implies #[trigger] f(i) == 0 by {
            assert(coef(b, k - i) == 0);
        }
        lemma_fsum_zeros((k - 1) as nat, f);
        assert(fsum((k + 1) as nat, f) == fsum(k as nat, f) + f(k));
        assert(fsum(k as nat, f) == fsum((k - 1) as nat, f) + f(k - 1));
        assert(coef(b, 1) == 1);
        assert(coef(b, 0) == b0);
    }
}

/// Shifting the coefficients up by one multiplies the value by `t`.
proof fn lemma_shift_sum(a: Seq<int>, t: int, n: nat)
    ensures
        fsum(n + 1, |k: int| coef(a, k - 1) * pow(t, k as nat)) == t * fsum(
            n,
            |k: int| coef(a, k) * pow(t, k as nat),
        ),
    decreases n,
{
    let g = |k: int| coef(a, k - 1) * pow(t, k as nat);
    let f = |k: int| coef(a, k) * pow(t, k as nat);
    if n == 0 {
        assert(fsum(1, g) == fsum(0, g) + g(0));
        assert(coef(a, -1) == 0);
    } else {
        lemma_shift_sum(a, t, (n - 1) as nat);
        assert(fsum(n + 1, g) == fsum(n, g) + g(n as int));
        assert(fsum(n, f) == fsum((n - 1) as nat, f) + f(n - 1));
        lemma_pow_adds(t, 1, (n - 1) as nat);
        lemma_pow1(t);
        assert(g(n as int) == coef(a, n - 1) * (t * pow(t, (n - 1) as nat)));
        lemma_mul_is_associative(coef(a, n - 1), t, pow(t, (n - 1) as nat));
        lemma_mul_is_commutative(coef(a, n - 1), t);
        lemma_mul_is_associative(t, coef(a, n - 1), pow(t, (n - 1) as nat));
        lemma_mul_is_distributive_add(t, fsum((n - 1) as nat, f), f(n - 1));
    }
}

/// Multiplying by the linear polynomial `x + b0` multiplies the value by `t + b0`.
pub proof fn lemma_value_times_linear(a: Seq<int>, b0: int, t: int)
    ensures
        poly_value(Seq::new(a.len() + 1, |k: int| conv(a, seq![b0, 1], k)), t) == poly_value(a, t)
            * (t + b0),
{
    let m = a.len();
    let c = Seq::new(m + 1, |k: int| conv(a, seq![b0, 1], k));
    let fc = |k: int| c[k] * pow(t, k as nat);
    let f1 = |k: int| (coef(a, k) * pow(t, k as nat)) * b0;
    let f0 = |k: int| coef(a, k) * pow(t, k as nat);
    let f2 = |k: int| coef(a, k - 1) * pow(t, k as nat);
    assert forall|k: int| 0 <= k < m + 1 implies #[trigger] fc(k) == f1(k) + f2(k) by {
        lemma_conv_linear(a, b0, k);
        lemma_mul_is_distributive_add_other_way(pow(t, k as nat), coef(a, k) * b0, coef(a, k - 1));
        lemma_mul_is_associative(coef(a, k), b0, pow(t, k as nat));
        lemma_mul_is_commutative(b0, pow(t, k as nat));
        lemma_mul_is_associative(coef(a, k), pow(t, k as nat), b0);
    }
    lemma_fsum_ext(m + 1, fc, |k: int| f1(k) + f2(k));
    lemma_fsum_add(m + 1, f1, f2);
    lemma_fsum_scale(m + 1, f0, f1, b0);
    lemma_poly_value_coef(a, t, m + 1);
    lemma_poly_value_coef(a, t, m);
    lemma_shift_sum(a, t, m);
    lemma_mul_is_distributive_add(poly_value(a, t), t, b0);
    lemma_mul_is_commutative(t, poly_value(a, t));
}

/// Splitting off the first term of a sum.
pub(crate) proof fn lemma_fsum_drop_first(n: nat, f: spec_fn(int) -> int)
    ensures
        fsum(n + 1, f) == f(0) + fsum(n, |i: int| f(i + 1)),
    decreases n,
{
    if n > 0 {
        lemma_fsum_drop_first((n - 1) as nat, f);
        assert(fsum(n + 1, f) == fsum(n, f) + f(n as int));
        assert(fsum(n, |i: int| f(i + 1)) == fsum((n - 1) as nat, |i: int| f(i + 1)) + f(n as int));
    } else {
        assert(fsum(1, f) == fsum(0, f) + f(0));
    }
}

/// A product coefficient, with the first factor's lowest coefficient split off.
proof fn lemma_conv_first(a: Seq<int>, b: Seq<int>, k: int)
    requires
        a.len() >= 1,
        k >= 0,
    ensures
        conv(a, b, k) == a[0] * coef(b, k) + conv(a.drop_first(), b, k - 1),
{
    let f = |i: int| coef(a, i) * coef(b, k - i);
    lemma_fsum_drop_first(k as nat, f);
    let g = |i: int| coef(a.drop_first(), i) * coef(b, (k - 1) - i);
    assert forall|i: int| 0 <= i < k implies #[trigger] f(i + 1) == g(i) by {
        assert(coef(a, i + 1) == coef(a.drop_first(), i));
    }
    lemma_fsum_ext(k as nat, |i: int| f(i + 1), g);
    assert(f(0) == a[0] * coef(b, k));
}

/// Evaluating a product: the sum of the product's coefficients against powers of `t`
/// is the product of the two values.
pub proof fn lemma_eval_conv(a: Seq<int>, b: Seq<int>, t: int, n: nat)
    requires
        n >= a.len() + b.len(),
    ensures
        fsum(n, |k: int| conv(a, b, k) * pow(t, k as nat)) == poly_value(a, t) * poly_value(b, t),
    decreases a.len(),
{
    let s = |k: int| conv(a, b, k) * pow(t, k as nat);
    if a.len() == 0 {
        assert forall|k: int| 0 <= k < n implies #[trigger] s(k) == 0 by {
            lemma_conv_beyond(a, b, k);
        }
        lemma_fsum_zeros(n, s);
        assert(poly_value(a, t) == 0);
    } else {
        let a2 = a.drop_first();
        let c = a[0];
        let m = (n - 1) as nat;
        lemma_eval_conv(a2, b, t, m);
        // the sum for a splits into c * value(b) and t times the sum for a2
        let fb = |k: int| coef(b, k) * pow(t, k as nat);
        let fr = |k: int| conv(a2, b, k - 1) * pow(t, k as nat);
        assert forall|k: int| 0 <= k < n implies #[trigger] s(k) == fb(k) * c + fr(k) by {
            lemma_conv_first(a, b, k);
            lemma_mul_is_distributive_add_other_way(pow(t, k as nat), c * coef(b, k), conv(a2, b, k - 1));
            lemma_mul_is_associative(c, coef(b, k), pow(t, k as nat));
            lemma_mul_is_commutative(c, coef(b, k) * pow(t, k as nat));
        }
        let fbc = |k: int| fb(k) * c;
        lemma_fsum_ext(n, s, |k: int| fbc(k) + fr(k));
        lemma_fsum_add(n, fbc, fr);
        lemma_fsum_scale(n, fb, fbc, c);
        lemma_poly_value_coef(b, t, n);
        // shifting the a2 part
        let h = |k: int| conv(a2, b, k) * pow(t, k as nat);
        lemma_fsum_drop_first(m, fr);
        assert(fr(0) == 0) by {
            assert(conv(a2, b, -1) == fsum(0, |i: int| coef(a2, i) * coef(b, -1 - i)));
        }
        assert forall|i: int| 0 <= i < m implies #[trigger] fr(i + 1) == h(i) * t by {
            lemma_pow_adds(t, i as nat, 1);
            lemma_pow1(t);
            assert(pow(t, (i + 1) as nat) == pow(t, i as nat) * t);
            lemma_mul_is_associative(conv(a2, b, i), pow(t, i as nat), t);
        }
        lemma_fsum_scale(m, h, |i: int| fr(i + 1), t);
        // value(a) = c + t * value(a2)
        let fa = |k: int| coef(a, k) * pow(t, k as nat);
        lemma_poly_value_coef(a, t, a.len());
        lemma_fsum_drop_first(a2.len(), fa);
        let fa2 = |k: int| a2[k] * pow(t, k as nat);
        assert forall|i: int| 0 <= i < a2.len() implies #[trigger] fa(i + 1) == fa2(i) * t by {
            lemma_pow_adds(t, i as nat, 1);
            lemma_pow1(t);
            lemma_mul_is_associative(a2[i], pow(t, i as nat), t);
        }
        lemma_fsum_scale(a2.len(), fa2, |i: int| fa(i + 1), t);
        lemma_pow0(t);
        assert(fa(0) == c);
        let va2 = poly_value(a2, t);
        let vb = poly_value(b, t);
        assert(poly_value(a, t) == c + va2 * t);
        assert(fsum(n, s) == vb * c + (va2 * vb) * t);
        assert(vb * c + (va2 * vb) * t == (c + va2 * t) * vb) by (nonlinear_arith);
    }
}

/// An exact product evaluates to the product of the values, modulo p.
pub proof fn lemma_product_evaluates(q: Seq<int>, b: Seq<int>, a: Seq<int>, t: int)
    requires
        is_product(q, b, a),
    ensures
        (poly_value(q, t) * poly_value(b, t)) % p() == poly_value(a, t) % p(),
{
    let n = q.len() + b.len() + a.len();
    lemma_eval_conv(q, b, t, n);
    lemma_poly_value_coef(a, t, n);
    let f1 = |k: int| conv(q, b, k) * pow(t, k as nat);
    let f2 = |k: int| coef(a, k) * pow(t, k as nat);
    assert forall|k: int| 0 <= k < n implies #[trigger] f1(k) % p() == f2(k) % p() by {
        assert(conv(q, b, k) % p() == coef(a, k) % p());
        lemma_mul_mod_noop_left(conv(q, b, k), pow(t, k as nat), p());
        lemma_mul_mod_noop_left(coef(a, k), pow(t, k as nat), p());
    }
    lemma_fsum_congr(n, f1, f2);
}

/// The difference of two polynomials evaluates to the difference of the values.
pub proof fn lemma_value_sub(a: Seq<int>, b: Seq<int>, t: int)
    ensures
        poly_value(poly_sub_spec(a, b), t) % p() == (poly_value(a, t) - poly_value(b, t)) % p(),
{
    let n: nat = if a.len() >= b.len() {
        a.len()
    } else {
        b.len()
    };
    let raw = Seq::new(n, |i: int| (coef(a, i) - coef(b, i)) % p());
    lemma_trim_coef(raw);
    lemma_poly_value_coef(trim(raw), t, n);
    lemma_poly_value_coef(raw, t, n);
    let ft = |i: int| coef(trim(raw), i) * pow(t, i as nat);
    let fr = |i: int| coef(raw, i) * pow(t, i as nat);
    lemma_fsum_ext(n, ft, fr);
    // the raw differences are congruent to the exact ones
    let fa = |i: int| coef(a, i) * pow(t, i as nat);
    let fb = |i: int| coef(b, i) * pow(t, i as nat);
    let fnb = |i: int| fb(i) * (-1);
    let fd = |i: int| fa(i) + fnb(i);
    assert forall|i: int| 0 <= i < n implies #[trigger] fr(i) % p() == fd(i) % p() by {
        lemma_mul_mod_noop_left(coef(a, i) - coef(b, i), pow(t, i as nat), p());
        lemma_mod_twice(coef(a, i) - coef(b, i), p());
        lemma_mul_mod_noop_left((coef(a, i) - coef(b, i)) % p(), pow(t, i as nat), p());
        lemma_mul_is_distributive_sub_other_way(pow(t, i as nat), coef(a, i), coef(b, i));
    }
    lemma_fsum_congr(n, fr, fd);
    lemma_fsum_add(n, fa, fnb);
    lemma_fsum_scale(n, fb, fnb, -1);
    lemma_poly_value_coef(a, t, n);
    lemma_poly_value_coef(b, t, n);
}

/// Scaling the argument: `x -> s(c * x)` takes at `z` the value of `s` at `c * z`.
pub proof fn lemma_value_shift(s: Seq<int>, c: int, z: int)
    ensures
        poly_value(shift_spec(s, c), z) % p() == poly_value(s, c * z) % p(),
{
    let sh = shift_spec(s, c);
    let f1 = |i: int| sh[i] * pow(z, i as nat);
    let f2 = |i: int| s[i] * pow(c * z, i as nat);
    assert forall|i: int| 0 <= i < s.len() implies #[trigger] f1(i) % p() == f2(i) % p() by {
        let e = i as nat;
        lemma_mul_mod_noop_left(s[i] * pow(c, e), pow(z, e), p());
        lemma_mod_twice(s[i] * pow(c, e), p());
        lemma_mul_mod_noop_left((s[i] * pow(c, e)) % p(), pow(z, e), p());
        lemma_pow_distributes(c, z, e);
        lemma_mul_is_associative(s[i], pow(c, e), pow(z, e));
    }
    lemma_fsum_congr(s.len(), f1, f2);
}

/// The linear factor `x - r` takes the value `z - r` at `z`.
pub proof fn lemma_value_linear_factor(r: int, z: int)
    ensures
        poly_value(linear_factor(r), z) % p() == (z - r) % p(),
{
    reveal_with_fuel(fsum, 3);
    lemma_pow0(z);
    lemma_pow1(z);
    let lf = linear_factor(r);
    assert(poly_value(lf, z) == lf[0] * pow(z, 0) + lf[1] * pow(z, 1));
    assert(lf[0] == (-r) % p() && lf[1] == 1);
    assert(lf[0] * 1 == lf[0]);
    assert(1 * z == z);
    assert(poly_value(lf, z) == (-r) % p() + z);
    lemma_add_mod_noop((-r), z, p());
    lemma_mod_twice(-r, p());
    lemma_add_mod_noop((-r) % p(), z, p());
}

/// Splitting off the lowest coefficient: `a(t) = a[0] + t * a'(t)` with `a'` the rest.
pub proof fn lemma_value_drop_first(a: Seq<int>, t: int)
    requires
        a.len() >= 1,
    ensures
        poly_value(a, t) == a[0] + t * poly_value(a.drop_first(), t),
{
    let a2 = a.drop_first();
    let fa = |k: int| coef(a, k) * pow(t, k as nat);
    lemma_poly_value_coef(a, t, a.len());
    lemma_fsum_drop_first(a2.len(), fa);
    let fa2 = |k: int| a2[k] * pow(t, k as nat);
    assert forall|i: int| 0 <= i < a2.len() implies #[trigger] fa(i + 1) == fa2(i) * t by {
        lemma_pow_adds(t, i as nat, 1);
        lemma_pow1(t);
        lemma_mul_is_associative(a2[i], pow(t, i as nat), t);
    }
    lemma_fsum_scale(a2.len(), fa2, |i: int| fa(i + 1), t);
    lemma_pow0(t);
    lemma_mul_is_commutative(t, poly_value(a2, t));
}

/// The quotient of `a` by `x - r` (synthetic division): coefficient k is the value at
/// `r` of the coefficients of `a` above position k.
pub open spec fn synthetic_quotient(a: Seq<int>, r: int) -> Seq<int> {
    Seq::new(
        if a.len() >= 1 {
            (a.len() - 1) as nat
        } else {
            0
        },
        |k: int| poly_value(a.subrange(k + 1, a.len() as int), r),
    )
}

/// The value at `r` of the coefficients from position k on, one step at a time.
proof fn lemma_tail_value(a: Seq<int>, r: int, k: int)
    requires
        0 <= k < a.len(),
    ensures
        poly_value(a.subrange(k, a.len() as int), r) == a[k] + r * poly_value(
            a.subrange(k + 1, a.len() as int),
            r,
        ),
{
    let tail = a.subrange(k, a.len() as int);
    lemma_value_drop_first(tail, r);
    assert(tail.drop_first() =~= a.subrange(k + 1, a.len() as int));
}


/// `x * (-r mod p)` is `-(r * x)` modulo p.
proof fn lemma_neg_factor(x: int, r: int)
    ensures
        (x * ((-r) % p())) % p() == (-(r * x)) % p(),
{
    lemma_mul_mod_noop_right(x, -r, p());
    lemma_mul_unary_negation(x, r);
    lemma_mul_is_commutative(x, r);
}

/// Coefficient t of the synthetic quotient times `x - r` gives back `a[t]`, when
/// `a(r) = 0`.
proof fn lemma_synthetic_coef(a: Seq<int>, r: int, t: int)
    requires
        poly_value(a, r) % p() == 0,
        0 <= t < a.len(),
    ensures
        conv(synthetic_quotient(a, r), linear_factor(r), t) % p() == coef(a, t) % p(),
{
    let q = synthetic_quotient(a, r);
    let n = a.len() as int;
    let b0 = (-r) % p();
    let x = poly_value(a.subrange(t + 1, n), r);
    assert(coef(q, t) == x) by {
        if t == n - 1 {
            assert(a.subrange(n, n).len() == 0);
        }
    }
    lemma_conv_linear(q, b0, t);
    lemma_tail_value(a, r, t);
    lemma_neg_factor(x, r);
    let nx = -(r * x);
    if t == 0 {
        assert(coef(q, -1) == 0);
        assert(a.subrange(0, n) =~= a);
        let s0 = a[0] + r * x;
        assert(s0 % p() == 0);
        lemma_sub_mod_noop(s0, r * x, p());
        lemma_sub_mod_noop(0, r * x, p());
        lemma_small_mod(0, p() as nat);
        assert(a[0] == s0 - r * x);
    } else {
        assert(coef(q, t - 1) == a[t] + r * x) by {
            lemma_tail_value(a, r, t);
        }
        lemma_add_mod_noop(x * b0, r * x, p());
        lemma_add_mod_noop(nx, r * x, p());
        lemma_small_mod(0, p() as nat);
        assert((x * b0 + r * x) % p() == 0);
        lemma_add_mod_noop(x * b0 + r * x, a[t], p());
        lemma_mod_twice(a[t], p());
        assert(x * b0 + (a[t] + r * x) == (x * b0 + r * x) + a[t]);
    }
}

/// The factor theorem: `x - r` divides `a` exactly when `a(r) = 0`.
pub proof fn lemma_factor_theorem(a: Seq<int>, r: int)
    ensures
        divides(linear_factor(r), a) <==> poly_value(a, r) % p() == 0,
{
    let lf = linear_factor(r);
    if divides(lf, a) {
        let q = choose|q: Seq<int>| #[trigger] is_product(q, lf, a);
        lemma_product_evaluates(q, lf, a, r);
        lemma_value_linear_factor(r, r);
        lemma_small_mod(0, p() as nat);
        lemma_mul_mod_noop_right(poly_value(q, r), poly_value(lf, r), p());
        assert(poly_value(q, r) * 0 == 0);
    }
    if poly_value(a, r) % p() == 0 {
        let q = synthetic_quotient(a, r);
        let n = a.len() as int;
        assert forall|t: int| t >= 0 implies #[trigger] conv(q, lf, t) % p() == coef(a, t) % p() by {
            if t >= n {
                lemma_conv_beyond(q, lf, t);
            } else {
                lemma_synthetic_coef(a, r, t);
            }
        }
        assert(is_product(q, lf, a));
    }
}

/// A polynomial takes congruent values at congruent points.
pub proof fn lemma_value_arg_mod(s: Seq<int>, x: int)
    ensures
        poly_value(s, x % p()) % p() == poly_value(s, x) % p(),
{
    let f1 = |i: int| s[i] * pow(x % p(), i as nat);
    let f2 = |i: int| s[i] * pow(x, i as nat);
    assert forall|i: int| 0 <= i < s.len() implies #[trigger] f1(i) % p() == f2(i) % p() by {
        lemma_pow_mod_noop(x, i as nat, p());
        lemma_mul_mod_noop_right(s[i], pow(x % p(), i as nat), p());
        lemma_mul_mod_noop_right(s[i], pow(x, i as nat), p());
    }
    lemma_fsum_congr(s.len(), f1, f2);
}

/// A product coefficient against a three-coefficient polynomial.
proof fn lemma_conv_quadratic(q: Seq<int>, z: Seq<int>, t: int)
    requires
        z.len() == 3,
        t >= 0,
    ensures
        conv(q, z, t) == coef(q, t) * z[0] + coef(q, t - 1) * z[1] + coef(q, t - 2) * z[2],
{
    let f = |i: int| coef(q, i) * coef(z, t - i);
    assert(conv(q, z, t) == fsum((t + 1) as nat, f));
    assert(f(t) == coef(q, t) * z[0]);
    if t == 0 {
        assert(fsum(1, f) == fsum(0, f) + f(0));
        assert(coef(q, -1) == 0 && coef(q, -2) == 0);
    } else if t == 1 {
        assert(fsum(2, f) == fsum(1, f) + f(1));
        assert(fsum(1, f) == fsum(0, f) + f(0));
        assert(f(0) == coef(q, 0) * z[1]);
        assert(coef(q, -1) == 0);
    } else {
        assert forall|i: int| 0 <= i < t - 2 implies #[trigger] f(i) == 0 by {
            assert(coef(z, t - i) == 0);
        }
        lemma_fsum_zeros((t - 2) as nat, f);
        assert(fsum((t + 1) as nat, f) == fsum(t as nat, f) + f(t));
        assert(fsum(t as nat, f) == fsum((t - 1) as nat, f) + f(t - 1));
        assert(fsum((t - 1) as nat, f) == fsum((t - 2) as nat, f) + f(t - 2));
        assert(f(t - 1) == coef(q, t - 1) * z[1]);
        assert(f(t - 2) == coef(q, t - 2) * z[2]);
    }
}

/// `u = A` and `v = B` modulo p give `u * c + v = A * c + B` modulo p.
proof fn lemma_mod_combine(u: int, a: int, v: int, b: int, c: int)
    requires
        u % p() == a % p(),
        v % p() == b % p(),
    ensures
        (u * c + v) % p() == (a * c + b) % p(),
{
    lemma_mul_mod_noop_left(u, c, p());
    lemma_mul_mod_noop_left(a, c, p());
    lemma_add_mod_noop(u * c, v, p());
    lemma_add_mod_noop(a * c, b, p());
}

/// Dividing twice by linear factors divides by their product: when
/// `q1 * (x - r1) = a` and `q2 * (x - r2) = q1`, then `q2 * (x - r1)(x - r2) = a`.
pub proof fn lemma_two_factors(q2: Seq<int>, q1: Seq<int>, a: Seq<int>, r1: int, r2: int)
    requires
        is_product(q1, linear_factor(r1), a),
        is_product(q2, linear_factor(r2), q1),
    ensures
        is_product(q2, Seq::new(3, |t: int| conv(linear_factor(r1), linear_factor(r2), t) % p()), a),
{
    let b1 = (-r1) % p();
    let b2 = (-r2) % p();
    let z = Seq::new(3, |t: int| conv(linear_factor(r1), linear_factor(r2), t) % p());
    lemma_conv_linear(linear_factor(r1), b2, 0);
    lemma_conv_linear(linear_factor(r1), b2, 1);
    lemma_conv_linear(linear_factor(r1), b2, 2);
    assert(z[0] == (b1 * b2) % p());
    assert(z[1] == (b2 + b1) % p());
    assert(z[2] == 1) by {
        lemma_small_mod(1, p() as nat);
    }
    // q1 = q2 * (x - r2), coefficient by coefficient
    assert forall|k: int| k >= -1 implies (#[trigger] coef(q2, k) * b2 + coef(q2, k - 1)) % p()
        == coef(q1, k) % p() by {
        if k >= 0 {
            lemma_conv_linear(q2, b2, k);
            assert(conv(q2, linear_factor(r2), k) % p() == coef(q1, k) % p());
        } else {
            assert(coef(q2, k) == 0 && coef(q2, k - 1) == 0 && coef(q1, k) == 0);
        }
    }
    assert forall|t: int| t >= 0 implies #[trigger] conv(q2, z, t) % p() == coef(a, t) % p() by {
        let c0 = coef(q2, t);
        let c1 = coef(q2, t - 1);
        let c2 = coef(q2, t - 2);
        lemma_conv_quadratic(q2, z, t);
        lemma_conv_linear(q1, b1, t);
        assert(conv(q1, linear_factor(r1), t) % p() == coef(a, t) % p());
        // a[t] = q1[t] * b1 + q1[t-1], with q1[t] = c0 * b2 + c1 and q1[t-1] = c1 * b2 + c2
        assert((c0 * b2 + c1) % p() == coef(q1, t) % p());
        assert((c1 * b2 + c2) % p() == coef(q1, t - 1) % p());
        lemma_mod_combine(coef(q1, t), c0 * b2 + c1, coef(q1, t - 1), c1 * b2 + c2, b1);
        assert((c0 * b2 + c1) * b1 + (c1 * b2 + c2) == c0 * (b1 * b2) + c1 * (b2 + b1) + c2 * 1)
            by (nonlinear_arith);
        // and the coefficients of z reduce
        lemma_mul_mod_noop_right(c0, b1 * b2, p());
        lemma_mul_mod_noop_right(c1, b2 + b1, p());
        lemma_add_mod_noop(c0 * (b1 * b2), c1 * (b2 + b1), p());
        lemma_add_mod_noop(c0 * z[0], c1 * z[1], p());
        lemma_add_mod_noop(c0 * (b1 * b2) + c1 * (b2 + b1), c2 * 1, p());
        lemma_add_mod_noop(c0 * z[0] + c1 * z[1], c2 * z[2], p());
    }
}

} // verus!
