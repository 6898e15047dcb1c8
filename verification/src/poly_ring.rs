//! Products of polynomials as a commutative, associative operation over the field,
//! and what follows for polynomials with many roots: one that vanishes at distinct
//! points is divisible by the product of the linear factors at those points.
use crate::fft_laws::{
    fsum, lemma_fsum_congr, lemma_fsum_ext, lemma_fsum_prefix, lemma_fsum_scale, lemma_fsum_swap,
    lemma_fsum_zeros,
};
use crate::field_babybear::{is_invertible, p};
use crate::field_laws::lemma_nonzero_invertible;
use crate::field_laws::lemma_invertible_mul;
use crate::poly::{coef, conv, divides, is_product, linear_factor, poly_value};
use crate::poly_laws::{
    lemma_cancel_invertible, lemma_conv_beyond, lemma_conv_linear, lemma_factor_theorem,
    lemma_fsum_drop_first, lemma_product_evaluates, lemma_value_linear_factor,
};
use crate::fft_laws::lemma_fsum_at_most_one;
use vstd::arithmetic::power::*;
use vstd::arithmetic::div_mod::*;
use vstd::arithmetic::mul::*;
use vstd::prelude::*;

verus! {

/// The product of `a` and `b` as a coefficient sequence over the integers.
pub open spec fn prod_seq(a: Seq<int>, b: Seq<int>) -> Seq<int> {
    Seq::new(
        if a.len() == 0 || b.len() == 0 {
            0
        } else {
            (a.len() + b.len() - 1) as nat
        },
        |k: int| conv(a, b, k),
    )
}

/// `a` and `b` are the same polynomial over the field: their coefficients agree modulo p.
pub open spec fn poly_eq(a: Seq<int>, b: Seq<int>) -> bool {
    forall|t: int|
        #![trigger coef(a, t)]
        #![trigger coef(b, t)]
        coef(a, t) % p() == coef(b, t) % p()
}

/// Every coefficient of the product sequence is the product coefficient.
pub proof fn lemma_prod_seq_coef(a: Seq<int>, b: Seq<int>, k: int)
    requires
        k >= 0,
    ensures
        coef(prod_seq(a, b), k) == conv(a, b, k),
{
    if k >= prod_seq(a, b).len() {
        if b.len() == 0 {
            let f = |i: int| coef(a, i) * coef(b, k - i);
            assert forall|i: int| 0 <= i < k + 1 implies #[trigger] f(i) == 0 by {
                assert(coef(b, k - i) == 0);
            }
            lemma_fsum_zeros((k + 1) as nat, f);
        } else {
            lemma_conv_beyond(a, b, k);
        }
    }
}

/// Summing in reverse order.
proof fn lemma_fsum_reverse(n: nat, f: spec_fn(int) -> int)
    ensures
        fsum(n, f) == fsum(n, |i: int| f(n - 1 - i)),
    decreases n,
{
    if n > 0 {
        let m = (n - 1) as nat;
        let g = |i: int| f(i + 1);
        lemma_fsum_reverse(m, g);
        lemma_fsum_drop_first(m, f);
        let r = |i: int| f(n - 1 - i);
        assert(fsum(n, r) == fsum(m, r) + r(m as int));
        lemma_fsum_ext(m, |i: int| g(m - 1 - i), r);
    }
}

/// Products commute.
pub proof fn lemma_conv_comm(a: Seq<int>, b: Seq<int>, t: int)
    requires
        t >= 0,
    ensures
        conv(a, b, t) == conv(b, a, t),
{
    {
        let n = (t + 1) as nat;
        let f = |i: int| coef(a, i) * coef(b, t - i);
        lemma_fsum_reverse(n, f);
        let g = |i: int| coef(b, i) * coef(a, t - i);
        assert forall|i: int| 0 <= i < n implies #[trigger] f(n - 1 - i) == g(i) by {
            lemma_mul_is_commutative(coef(a, t - i), coef(b, i));
        }
        lemma_fsum_ext(n, |i: int| f(n - 1 - i), g);
    }
}

/// Shifting the index of a sum whose leading terms vanish.
proof fn lemma_fsum_shift(n: nat, i: nat, h: spec_fn(int) -> int)
    requires
        forall|j: int| j < 0 ==> #[trigger] h(j) == 0,
    ensures
        fsum(n + i, |k: int| h(k - i)) == fsum(n, h),
    decreases i,
{
    if i > 0 {
        let i1 = (i - 1) as nat;
        let m = n + i1;
        let f = |k: int| h(k - i);
        let f1 = |k: int| h(k - i1);
        lemma_fsum_drop_first(m, f);
        assert(m + 1 == n + i);
        assert(f(0) == 0);
        assert forall|k: int| 0 <= k < m implies #[trigger] f(k + 1) == f1(k) by {
            assert(k + 1 - i == k - i1);
        }
        lemma_fsum_ext(m, |k: int| f(k + 1), f1);
        lemma_fsum_shift(n, i1, h);
    } else {
        lemma_fsum_ext(n, |k: int| h(k - i), h);
    }
}

/// The triple sum behind associativity, summed in the order of `(a * b) * c`.
proof fn lemma_assoc_left(a: Seq<int>, b: Seq<int>, c: Seq<int>, t: int)
    requires
        t >= 0,
    ensures
        conv(prod_seq(a, b), c, t) == fsum(
            (t + 1) as nat,
            |k: int| fsum((t + 1) as nat, |i: int| coef(a, i) * coef(b, k - i) * coef(c, t - k)),
        ),
{
    let n = (t + 1) as nat;
    let outer = |k: int| coef(prod_seq(a, b), k) * coef(c, t - k);
    let target = |k: int| fsum(n, |i: int| coef(a, i) * coef(b, k - i) * coef(c, t - k));
    assert forall|k: int| 0 <= k < n implies #[trigger] outer(k) == target(k) by {
        lemma_prod_seq_coef(a, b, k);
        let inner = |i: int| coef(a, i) * coef(b, k - i);
        let inner_full = |i: int| coef(a, i) * coef(b, k - i);
        assert forall|i: int| k + 1 <= i < n implies #[trigger] inner_full(i) == 0 by {
            assert(coef(b, k - i) == 0);
        }
        lemma_fsum_prefix(n, (k + 1) as nat, inner_full);
        let scaled = |i: int| coef(a, i) * coef(b, k - i) * coef(c, t - k);
        lemma_fsum_scale(n, inner_full, scaled, coef(c, t - k));
    }
    lemma_fsum_ext(n, outer, target);
}

/// The triple sum behind associativity, summed in the order of `a * (b * c)`.
proof fn lemma_assoc_right(a: Seq<int>, b: Seq<int>, c: Seq<int>, t: int)
    requires
        t >= 0,
    ensures
        conv(a, prod_seq(b, c), t) == fsum(
            (t + 1) as nat,
            |i: int| fsum((t + 1) as nat, |k: int| coef(a, i) * coef(b, k - i) * coef(c, t - k)),
        ),
{
    let n = (t + 1) as nat;
    let outer = |i: int| coef(a, i) * coef(prod_seq(b, c), t - i);
    let target = |i: int| fsum(n, |k: int| coef(a, i) * coef(b, k - i) * coef(c, t - k));
    assert forall|i: int| 0 <= i < n implies #[trigger] outer(i) == target(i) by {
        lemma_prod_seq_coef(b, c, t - i);
        // conv(b, c, t - i) summed over j, re-indexed by k = i + j
        let h = |j: int| coef(b, j) * coef(c, t - i - j);
        assert forall|j: int| j < 0 implies #[trigger] h(j) == 0 by {
            assert(coef(b, j) == 0);
        }
        lemma_fsum_shift((t - i + 1) as nat, i as nat, h);
        assert(((t - i + 1) as nat + i as nat) == n);
        let hk = |k: int| coef(b, k - i) * coef(c, t - k);
        lemma_fsum_ext(n, |k: int| h(k - i as nat), hk);
        let scaled = |k: int| coef(a, i) * coef(b, k - i) * coef(c, t - k);
        assert forall|k: int| 0 <= k < n implies #[trigger] scaled(k) == hk(k) * coef(a, i) by {
            lemma_mul_is_associative(coef(a, i), coef(b, k - i), coef(c, t - k));
            lemma_mul_is_commutative(coef(a, i), coef(b, k - i) * coef(c, t - k));
        }
        lemma_fsum_scale(n, hk, scaled, coef(a, i));
        lemma_mul_is_commutative(coef(a, i), fsum(n, hk));
    }
    lemma_fsum_ext(n, outer, target);
}

/// Products associate.
pub proof fn lemma_conv_assoc(a: Seq<int>, b: Seq<int>, c: Seq<int>, t: int)
    requires
        t >= 0,
    ensures
        conv(prod_seq(a, b), c, t) == conv(a, prod_seq(b, c), t),
{
    let n = (t + 1) as nat;
    lemma_assoc_left(a, b, c, t);
    lemma_assoc_right(a, b, c, t);
    let f = |k: int, i: int| coef(a, i) * coef(b, k - i) * coef(c, t - k);
    lemma_fsum_swap(n, n, f);
    let l1 = |k: int| fsum(n, |i: int| f(k, i));
    let l2 = |k: int| fsum(n, |i: int| coef(a, i) * coef(b, k - i) * coef(c, t - k));
    assert forall|k: int| 0 <= k < n implies #[trigger] l1(k) == l2(k) by {
        lemma_fsum_ext(n, |i: int| f(k, i), |i: int| coef(a, i) * coef(b, k - i) * coef(c, t - k));
    }
    lemma_fsum_ext(n, l1, l2);
    let r1 = |i: int| fsum(n, |k: int| f(k, i));
    let r2 = |i: int| fsum(n, |k: int| coef(a, i) * coef(b, k - i) * coef(c, t - k));
    assert forall|i: int| 0 <= i < n implies #[trigger] r1(i) == r2(i) by {
        lemma_fsum_ext(n, |k: int| f(k, i), |k: int| coef(a, i) * coef(b, k - i) * coef(c, t - k));
    }
    lemma_fsum_ext(n, r1, r2);
}

/// Product coefficients only depend on the factors' coefficients modulo p.
pub proof fn lemma_conv_congr(a: Seq<int>, a2: Seq<int>, b: Seq<int>, b2: Seq<int>, t: int)
    requires
        poly_eq(a, a2),
        poly_eq(b, b2),
        t >= 0,
    ensures
        conv(a, b, t) % p() == conv(a2, b2, t) % p(),
{
    {
        let n = (t + 1) as nat;
        let f1 = |i: int| coef(a, i) * coef(b, t - i);
        let f2 = |i: int| coef(a2, i) * coef(b2, t - i);
        assert forall|i: int| 0 <= i < n implies #[trigger] f1(i) % p() == f2(i) % p() by {
            assert(coef(a, i) % p() == coef(a2, i) % p());
            assert(coef(b, t - i) % p() == coef(b2, t - i) % p());
            lemma_mul_mod_noop(coef(a, i), coef(b, t - i), p());
            lemma_mul_mod_noop(coef(a2, i), coef(b2, t - i), p());
        }
        lemma_fsum_congr(n, f1, f2);
    }
}

/// `q * b = a` says that the product sequence and `a` are the same polynomial.
pub proof fn lemma_product_is_poly_eq(q: Seq<int>, b: Seq<int>, a: Seq<int>)
    ensures
        is_product(q, b, a) <==> poly_eq(prod_seq(q, b), a),
{
    if is_product(q, b, a) {
        assert forall|t: int|
            #![trigger coef(prod_seq(q, b), t)]
            #![trigger coef(a, t)]
            coef(prod_seq(q, b), t) % p() == coef(a, t) % p() by {
            if t >= 0 {
                lemma_prod_seq_coef(q, b, t);
            } else {
                assert(coef(a, t) == 0);
            }
        }
    }
    if poly_eq(prod_seq(q, b), a) {
        assert forall|t: int| t >= 0 implies #[trigger] conv(q, b, t) % p() == coef(a, t) % p() by {
            lemma_prod_seq_coef(q, b, t);
        }
    }
}

/// Chaining exact divisions: `q1 * b1 = a` and `q2 * b2 = q1` give `q2 * (b2 * b1) = a`.
pub proof fn lemma_product_chain(q2: Seq<int>, b2: Seq<int>, q1: Seq<int>, b1: Seq<int>, a: Seq<int>)
    requires
        is_product(q1, b1, a),
        is_product(q2, b2, q1),
    ensures
        is_product(q2, prod_seq(b2, b1), a),
{
    lemma_product_is_poly_eq(q2, b2, q1);
    assert forall|t: int| t >= 0 implies #[trigger] conv(q2, prod_seq(b2, b1), t) % p() == coef(a, t)
        % p() by {
        lemma_conv_assoc(q2, b2, b1, t);
        assert forall|u: int|
            #![trigger coef(b1, u)]
            coef(b1, u) % p() == coef(b1, u) % p() by {}
        lemma_conv_congr(prod_seq(q2, b2), q1, b1, b1, t);
    }
}

/// A product with an invertible-led factor does not change when the other factor is
/// replaced by one congruent to it.
pub proof fn lemma_is_product_congr(q: Seq<int>, q2: Seq<int>, b: Seq<int>, b2: Seq<int>, a: Seq<int>, a2: Seq<int>)
    requires
        is_product(q, b, a),
        poly_eq(q, q2),
        poly_eq(b, b2),
        poly_eq(a, a2),
    ensures
        is_product(q2, b2, a2),
{
    assert forall|t: int| t >= 0 implies #[trigger] conv(q2, b2, t) % p() == coef(a2, t) % p() by {
        lemma_conv_congr(q, q2, b, b2, t);
        assert(coef(a, t) % p() == coef(a2, t) % p());
    }
}

/// The power `g^i`, reduced modulo p.
pub open spec fn root_pow(g: int, i: nat) -> int {
    pow(g, i) % p()
}

/// The polynomial `(x - g^0) (x - g^1) ... (x - g^(m-1))`, coefficients reduced.
pub open spec fn root_product(g: int, m: nat) -> Seq<int>
    decreases m,
{
    if m == 0 {
        seq![1]
    } else {
        let w = root_product(g, (m - 1) as nat);
        Seq::new(m + 1, |k: int| conv(w, linear_factor(root_pow(g, (m - 1) as nat)), k) % p())
    }
}

/// `prod_{i < m} (x - g^i)`, over the integers.
pub open spec fn root_product_value(g: int, m: nat, x: int) -> int
    decreases m,
{
    if m == 0 {
        1
    } else {
        root_product_value(g, (m - 1) as nat, x) * (x - root_pow(g, (m - 1) as nat))
    }
}

/// Each root product is the previous one times the next linear factor, has m + 1
/// coefficients, and leads with 1.
pub proof fn lemma_root_product_step(g: int, m: nat)
    ensures
        root_product(g, m).len() == m + 1,
        root_product(g, m)[m as int] == 1,
        m >= 1 ==> is_product(
            root_product(g, (m - 1) as nat),
            linear_factor(root_pow(g, (m - 1) as nat)),
            root_product(g, m),
        ),
    decreases m,
{
    if m >= 1 {
        let w = root_product(g, (m - 1) as nat);
        let r = root_pow(g, (m - 1) as nat);
        let lf = linear_factor(r);
        let wm = root_product(g, m);
        lemma_root_product_step(g, (m - 1) as nat);
        lemma_conv_linear(w, (-r) % p(), m as int);
        assert(coef(w, m as int) == 0);
        assert(coef(w, m - 1) == 1);
        lemma_small_mod(1, p() as nat);
        assert forall|t: int| t >= 0 implies #[trigger] conv(w, lf, t) % p() == coef(wm, t) % p() by {
            if t <= m {
                lemma_mod_twice(conv(w, lf, t), p());
            } else {
                lemma_conv_beyond(w, lf, t);
                lemma_small_mod(0, p() as nat);
            }
        }
    }
}

/// A root product evaluates to the product of the differences.
pub proof fn lemma_root_product_value(g: int, m: nat, x: int)
    ensures
        poly_value(root_product(g, m), x) % p() == root_product_value(g, m, x) % p(),
    decreases m,
{
    if m == 0 {
        reveal_with_fuel(fsum, 2);
        lemma_pow0(x);
        assert(poly_value(seq![1], x) == 1 * pow(x, 0));
    } else {
        let w = root_product(g, (m - 1) as nat);
        let r = root_pow(g, (m - 1) as nat);
        lemma_root_product_step(g, m);
        lemma_root_product_value(g, (m - 1) as nat, x);
        lemma_product_evaluates(w, linear_factor(r), root_product(g, m), x);
        lemma_value_linear_factor(r, x);
        let vw = poly_value(w, x);
        let vl = poly_value(linear_factor(r), x);
        let pw = root_product_value(g, (m - 1) as nat, x);
        lemma_mul_mod_noop(vw, vl, p());
        lemma_mul_mod_noop(pw, x - r, p());
    }
}

/// The product of differences to other roots is invertible.
proof fn lemma_root_product_value_invertible(g: int, m: nat, x: int)
    requires
        forall|i: nat| i < m ==> (x - #[trigger] root_pow(g, i)) % p() != 0,
    ensures
        is_invertible(root_product_value(g, m, x)),
    decreases m,
{
    if m == 0 {
        lemma_small_mod(1, p() as nat);
        assert((1int * 1int) % p() == 1);
    } else {
        lemma_root_product_value_invertible(g, (m - 1) as nat, x);
        let r = root_pow(g, (m - 1) as nat);
        lemma_nonzero_invertible(x - r);
        lemma_invertible_mul(root_product_value(g, (m - 1) as nat, x), x - r);
    }
}

/// Multiplying by the constant polynomial 1.
proof fn lemma_product_one(a: Seq<int>)
    ensures
        is_product(a, seq![1], a),
{
    assert forall|t: int| t >= 0 implies #[trigger] conv(a, seq![1], t) % p() == coef(a, t) % p() by {
        let f = |i: int| coef(a, i) * coef(seq![1], t - i);
        assert forall|i: int| 0 <= i < t + 1 && i != t implies #[trigger] f(i) % p() == 0 by {
            assert(coef(seq![1], t - i) == 0);
            lemma_small_mod(0, p() as nat);
        }
        assert(f(t) == coef(a, t));
        lemma_fsum_at_most_one((t + 1) as nat, f, t, coef(a, t));
    }
}

/// A polynomial that vanishes at the distinct points `g^0, ..., g^(m-1)` is divisible by
/// `(x - g^0) ... (x - g^(m-1))`.
pub proof fn lemma_vanishing_divisible(g: int, m: nat, a: Seq<int>)
    requires
        forall|i: nat| i < m ==> #[trigger] poly_value(a, root_pow(g, i)) % p() == 0,
        forall|i: nat, j: nat| i < j < m ==> (#[trigger] root_pow(g, j) - #[trigger] root_pow(g, i)) % p() != 0,
    ensures
        divides(root_product(g, m), a),
    decreases m,
{
    if m == 0 {
        lemma_product_one(a);
    } else {
        let m1 = (m - 1) as nat;
        lemma_vanishing_divisible(g, m1, a);
        let w = root_product(g, m1);
        let wm = root_product(g, m);
        let r = root_pow(g, m1);
        let q = choose|q: Seq<int>| #[trigger] is_product(q, w, a);
        // q vanishes at r, since w does not
        lemma_product_evaluates(q, w, a, r);
        lemma_root_product_value(g, m1, r);
        assert forall|i: nat| i < m1 implies (r - #[trigger] root_pow(g, i)) % p() != 0 by {
            assert(root_pow(g, m1) == r);
        }
        lemma_root_product_value_invertible(g, m1, r);
        let vq = poly_value(q, r);
        let vw = poly_value(w, r);
        let pw = root_product_value(g, m1, r);
        lemma_mul_mod_noop_right(vq, vw, p());
        lemma_mul_mod_noop_right(vq, pw, p());
        assert((vq * pw) % p() == 0);
        lemma_cancel_invertible(vq, pw);
        lemma_factor_theorem(q, r);
        let q2 = choose|q2: Seq<int>| #[trigger] is_product(q2, linear_factor(r), q);
        lemma_product_chain(q2, linear_factor(r), q, w, a);
        // linear_factor(r) * w is the next root product
        lemma_root_product_step(g, m);
        let pl = prod_seq(linear_factor(r), w);
        assert forall|t: int|
            #![trigger coef(pl, t)]
            #![trigger coef(wm, t)]
            coef(pl, t) % p() == coef(wm, t) % p() by {
            if t >= 0 {
                lemma_prod_seq_coef(linear_factor(r), w, t);
                lemma_conv_comm(linear_factor(r), w, t);
                assert(conv(w, linear_factor(r), t) % p() == coef(wm, t) % p());
            }
        }
        assert forall|t: int|
            #![trigger coef(q2, t)]
            coef(q2, t) % p() == coef(q2, t) % p() by {}
        assert forall|t: int|
            #![trigger coef(a, t)]
            coef(a, t) % p() == coef(a, t) % p() by {}
        lemma_is_product_congr(q2, q2, pl, wm, a, a);
    }
}

} // verus!
