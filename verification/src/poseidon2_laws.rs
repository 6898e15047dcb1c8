//! The Poseidon2 permutation is a permutation: with the S-box `x^7` and an invertible
//! internal matrix, distinct field states are mapped to distinct states.
use crate::fft_laws::{fsum, lemma_fsum_add, lemma_fsum_at_most_one, lemma_fsum_ext, lemma_fsum_scale};
use crate::field_babybear::{inv_spec, is_invertible, lemma_inverse_spec, p, vals, FpBabyBear};
use crate::field_laws::{lemma_fermat, lemma_nonzero_invertible};
use crate::poly_laws::lemma_cancel_invertible;
use crate::poseidon2::{
    add_rc_spec, column_sum, external_spec, internal_spec, m4_row, m4_spec, permutation_spec,
    round_spec, rounds_spec, sbox_all_spec, sbox_spec, supported_width, Poseidon2Params,
};
use vstd::arithmetic::div_mod::*;
use vstd::arithmetic::mul::*;
use vstd::arithmetic::power::*;
use vstd::prelude::*;

verus! {

broadcast use FpBabyBear::lemma_val_range;

/// Every element is a reduced field value.
pub open spec fn is_reduced(s: Seq<int>) -> bool {
    forall|i: int| 0 <= i < s.len() ==> 0 <= #[trigger] s[i] < p()
}

/// A combination of multiples of p is a multiple of p.
proof fn lemma_comb_zero(a0: int, r0: int, a1: int, r1: int, a2: int, r2: int, a3: int, r3: int)
    requires
        r0 % p() == 0,
        r1 % p() == 0,
        r2 % p() == 0,
        r3 % p() == 0,
    ensures
        (a0 * r0 + a1 * r1 + a2 * r2 + a3 * r3) % p() == 0,
{
    lemma_small_mod(0, p() as nat);
    lemma_mul_mod_noop_right(a0, r0, p());
    lemma_mul_mod_noop_right(a1, r1, p());
    lemma_mul_mod_noop_right(a2, r2, p());
    lemma_mul_mod_noop_right(a3, r3, p());
    assert(a0 * 0 == 0 && a1 * 0 == 0 && a2 * 0 == 0 && a3 * 0 == 0);
    lemma_add_mod_noop(a0 * r0, a1 * r1, p());
    lemma_add_mod_noop(a0 * r0 + a1 * r1, a2 * r2, p());
    lemma_add_mod_noop(a0 * r0 + a1 * r1 + a2 * r2, a3 * r3, p());
}

/// `c * u` is a multiple of p for a small nonzero constant `c` only when `u` is.
proof fn lemma_cancel_const(u: int, c: int)
    requires
        0 < c < p() || -p() < c < 0,
        (c * u) % p() == 0,
    ensures
        u % p() == 0,
{
    if c > 0 {
        lemma_small_mod(c as nat, p() as nat);
    } else {
        lemma_mod_add_multiples_vanish(c, p());
        lemma_small_mod((c + p()) as nat, p() as nat);
    }
    lemma_nonzero_invertible(c);
    lemma_mul_is_commutative(c, u);
    lemma_cancel_invertible(u, c);
}

/// The 4x4 matrix [[5,7,1,3],[4,6,1,1],[1,3,5,7],[1,1,4,6]] has determinant -64, so it
/// maps only multiples of p to multiples of p.
proof fn lemma_m4_cancel(u0: int, u1: int, u2: int, u3: int)
    requires
        (5 * u0 + 7 * u1 + u2 + 3 * u3) % p() == 0,
        (4 * u0 + 6 * u1 + u2 + u3) % p() == 0,
        (u0 + 3 * u1 + 5 * u2 + 7 * u3) % p() == 0,
        (u0 + u1 + 4 * u2 + 6 * u3) % p() == 0,
    ensures
        u0 % p() == 0,
        u1 % p() == 0,
        u2 % p() == 0,
        u3 % p() == 0,
{
    let r0 = 5 * u0 + 7 * u1 + u2 + 3 * u3;
    let r1 = 4 * u0 + 6 * u1 + u2 + u3;
    let r2 = u0 + 3 * u1 + 5 * u2 + 7 * u3;
    let r3 = u0 + u1 + 4 * u2 + 6 * u3;
    lemma_comb_zero(8, r0, -24, r1, 48, r2, -56, r3);
    lemma_comb_zero(-8, r0, 8, r1, -32, r2, 40, r3);
    lemma_comb_zero(48, r0, -56, r1, 8, r2, -24, r3);
    lemma_comb_zero(-32, r0, 40, r1, -8, r2, 8, r3);
    assert(8 * r0 + -24 * r1 + 48 * r2 + -56 * r3 == -64 * u0);
    assert(-8 * r0 + 8 * r1 + -32 * r2 + 40 * r3 == -64 * u1);
    assert(48 * r0 + -56 * r1 + 8 * r2 + -24 * r3 == -64 * u2);
    assert(-32 * r0 + 40 * r1 + -8 * r2 + 8 * r3 == -64 * u3);
    lemma_cancel_const(u0, -64);
    lemma_cancel_const(u1, -64);
    lemma_cancel_const(u2, -64);
    lemma_cancel_const(u3, -64);
}

/// `x^7` has the inverse `y -> y^1725656503`, since 7 * 1725656503 = 1 + 6 (p - 1).
proof fn lemma_sbox7_inverse(x: int)
    requires
        0 <= x < p(),
    ensures
        pow(pow(x, 7) % p(), 1725656503) % p() == x,
{
    let e: nat = 1725656503;
    lemma_pow_mod_noop(pow(x, 7), e, p());
    lemma_pow_multiplies(x, 7, e);
    assert(7 * e == 1 + 2013265920 * 6);
    lemma_pow_adds(x, 1, 2013265920 * 6);
    lemma_pow1(x);
    if x == 0 {
        lemma0_pow(2013265920 * 6);
        assert(x * pow(x, 2013265920 * 6) == 0);
        lemma_small_mod(0, p() as nat);
    } else {
        lemma_small_mod(x as nat, p() as nat);
        lemma_fermat(x);
        lemma_pow_multiplies(x, 2013265920, 6);
        lemma_pow_mod_noop(pow(x, 2013265920), 6, p());
        lemma1_pow(6);
        lemma_small_mod(1, p() as nat);
        lemma_mul_mod_noop_right(x, pow(x, 2013265920 * 6), p());
        assert(x * 1 == x);
    }
}

/// `x^7` is injective on field values.
pub proof fn lemma_sbox7_injective(x: int, y: int)
    requires
        0 <= x < p(),
        0 <= y < p(),
        pow(x, 7) % p() == pow(y, 7) % p(),
    ensures
        x == y,
{
    lemma_sbox7_inverse(x);
    lemma_sbox7_inverse(y);
}

/// Equal residues differ by a multiple of p.
proof fn lemma_diff_zero(a: int, b: int)
    requires
        a % p() == b % p(),
    ensures
        (a - b) % p() == 0,
{
    lemma_sub_mod_noop(a, b, p());
    lemma_small_mod(0, p() as nat);
}

/// Numbers that differ by a multiple of p have equal residues.
proof fn lemma_from_diff(a: int, b: int)
    requires
        (a - b) % p() == 0,
    ensures
        a % p() == b % p(),
{
    lemma_add_mod_noop(a - b, b, p());
    lemma_mod_twice(b, p());
    lemma_small_mod(0, p() as nat);
}

/// The 4x4 blocks of `m4_spec` lose nothing: equal images come from congruent states.
proof fn lemma_m4_spec_injective(x: Seq<int>, x2: Seq<int>, k: int)
    requires
        k >= 1,
        x.len() == 4 * k,
        x2.len() == 4 * k,
        forall|j: int| 0 <= j < 4 * k ==> #[trigger] m4_row(x, j) == m4_row(x2, j),
    ensures
        forall|j: int| 0 <= j < 4 * k ==> #[trigger] x[j] % p() == x2[j] % p(),
{
    assert forall|j: int| 0 <= j < 4 * k implies #[trigger] x[j] % p() == x2[j] % p() by {
        let b = j - j % 4;
        let q = j / 4;
        lemma_fundamental_div_mod(j, 4);
        assert(b == 4 * q);
        assert(0 <= q < k);
        assert((4 * q) % 4 == 0 && (4 * q + 1) % 4 == 1 && (4 * q + 2) % 4 == 2 && (4 * q + 3) % 4
            == 3) by {
            lemma_mod_multiples_vanish(q, 0, 4);
            lemma_mod_multiples_vanish(q, 1, 4);
            lemma_mod_multiples_vanish(q, 2, 4);
            lemma_mod_multiples_vanish(q, 3, 4);
            lemma_small_mod(0, 4);
            lemma_small_mod(1, 4);
            lemma_small_mod(2, 4);
            lemma_small_mod(3, 4);
        }
        let a0 = x[b];
        let a1 = x[b + 1];
        let a2 = x[b + 2];
        let a3 = x[b + 3];
        let c0 = x2[b];
        let c1 = x2[b + 1];
        let c2 = x2[b + 2];
        let c3 = x2[b + 3];
        assert(m4_row(x, b) == m4_row(x2, b));
        assert(m4_row(x, b + 1) == m4_row(x2, b + 1));
        assert(m4_row(x, b + 2) == m4_row(x2, b + 2));
        assert(m4_row(x, b + 3) == m4_row(x2, b + 3));
        lemma_diff_zero(5 * a0 + 7 * a1 + a2 + 3 * a3, 5 * c0 + 7 * c1 + c2 + 3 * c3);
        lemma_diff_zero(4 * a0 + 6 * a1 + a2 + a3, 4 * c0 + 6 * c1 + c2 + c3);
        lemma_diff_zero(a0 + 3 * a1 + 5 * a2 + 7 * a3, c0 + 3 * c1 + 5 * c2 + 7 * c3);
        lemma_diff_zero(a0 + a1 + 4 * a2 + 6 * a3, c0 + c1 + 4 * c2 + 6 * c3);
        lemma_m4_cancel(a0 - c0, a1 - c1, a2 - c2, a3 - c3);
        lemma_from_diff(a0, c0);
        lemma_from_diff(a1, c1);
        lemma_from_diff(a2, c2);
        lemma_from_diff(a3, c3);
    }
}

/// `sum (f(i) - g(i) + c) = sum f - sum g + n c`.
proof fn lemma_fsum_diff_const(n: nat, f: spec_fn(int) -> int, g: spec_fn(int) -> int, c: int)
    ensures
        fsum(n, |i: int| f(i) - g(i) + c) == fsum(n, f) - fsum(n, g) + n * c,
    decreases n,
{
    if n > 0 {
        lemma_fsum_diff_const((n - 1) as nat, f, g, c);
        assert(n * c == (n - 1) * c + c) by (nonlinear_arith);
    }
}

/// In one lane `l` of the wide external layer, where every output adds the lane's
/// column sum, equal outputs force equal inputs: the lane sum itself cancels because
/// `1 + k` is invertible.
proof fn lemma_lane_injective(y: Seq<int>, y2: Seq<int>, k: int, l: int)
    requires
        1 <= k <= 6,
        0 <= l < 4,
        y.len() == 4 * k,
        y2.len() == 4 * k,
        forall|j: int|
            0 <= j < k ==> (#[trigger] y[4 * j + l] + column_sum(y, k, l)) % p() == (y2[4 * j + l]
                + column_sum(y2, k, l)) % p(),
    ensures
        forall|j: int| 0 <= j < k ==> (#[trigger] y[4 * j + l] - y2[4 * j + l]) % p() == 0,
{
    let f = |j: int| y[4 * j + l];
    let f2 = |j: int| y2[4 * j + l];
    let c = column_sum(y, k, l);
    let c2 = column_sum(y2, k, l);
    let d = c - c2;
    let h = |j: int| f(j) - f2(j) + d;
    assert forall|i: int| 0 <= i < k implies #[trigger] h(i) % p() == 0 by {
        lemma_diff_zero(y[4 * i + l] + c, y2[4 * i + l] + c2);
    }
    lemma_fsum_at_most_one(k as nat, h, -1, 0);
    lemma_small_mod(0, p() as nat);
    lemma_fsum_diff_const(k as nat, f, f2, d);
    let sf = fsum(k as nat, f);
    let sf2 = fsum(k as nat, f2);
    assert(c == sf % p());
    assert(c2 == sf2 % p());
    // (sf - sf2 + k d) = 0 and sf = c, sf2 = c2 give (1 + k) d = 0
    lemma_sub_mod_noop(sf, sf2, p());
    lemma_sub_mod_noop(c, c2, p());
    lemma_mod_twice(sf, p());
    lemma_mod_twice(sf2, p());
    lemma_add_mod_noop(sf - sf2, k * d, p());
    lemma_add_mod_noop(c - c2, k * d, p());
    assert((d + k * d) % p() == 0);
    assert(d + k * d == (1 + k) * d) by (nonlinear_arith);
    lemma_cancel_const(d, 1 + k);
    assert forall|j: int| 0 <= j < k implies (#[trigger] y[4 * j + l] - y2[4 * j + l]) % p() == 0 by {
        assert(h(j) % p() == 0);
        lemma_sub_mod_noop(h(j), d, p());
        assert(h(j) - d == y[4 * j + l] - y2[4 * j + l]);
    }
}

/// One lane of the wide external layer: equal outputs give equal block products there.
proof fn lemma_external_lane(t: int, x: Seq<int>, x2: Seq<int>, l: int)
    requires
        t == 8 || t == 12 || t == 16 || t == 20 || t == 24,
        0 <= l < 4,
        x.len() == t,
        x2.len() == t,
        external_spec(t, x) == external_spec(t, x2),
    ensures
        forall|j: int|
            0 <= j < t / 4 ==> (#[trigger] m4_spec(x, t / 4)[4 * j + l] - m4_spec(x2, t / 4)[4 * j
                + l]) % p() == 0,
{
    let e = external_spec(t, x);
    let e2 = external_spec(t, x2);
    let k = t / 4;
    let y = m4_spec(x, k);
    let y2 = m4_spec(x2, k);
    assert forall|j: int| 0 <= j < k implies (#[trigger] y[4 * j + l] + column_sum(y, k, l)) % p()
        == (y2[4 * j + l] + column_sum(y2, k, l)) % p() by {
        lemma_mod_multiples_vanish(j, l, 4);
        lemma_small_mod(l as nat, 4);
        assert((4 * j + l) % 4 == l);
        assert(e[4 * j + l] == e2[4 * j + l]);
    }
    lemma_lane_injective(y, y2, k, l);
}

/// The external linear layer is injective on states of its width: equal outputs come
/// only from states that agree modulo p.
pub proof fn lemma_external_injective(t: int, x: Seq<int>, x2: Seq<int>)
    requires
        supported_width(t),
        x.len() == t,
        x2.len() == t,
        external_spec(t, x) == external_spec(t, x2),
    ensures
        forall|i: int| 0 <= i < t ==> #[trigger] x[i] % p() == x2[i] % p(),
{
    let e = external_spec(t, x);
    let e2 = external_spec(t, x2);
    if t == 2 {
        assert(e[0] == e2[0] && e[1] == e2[1]);
        let u0 = x[0] - x2[0];
        let u1 = x[1] - x2[1];
        lemma_diff_zero(2 * x[0] + x[1], 2 * x2[0] + x2[1]);
        lemma_diff_zero(x[0] + 2 * x[1], x2[0] + 2 * x2[1]);
        let r0 = 2 * u0 + u1;
        let r1 = u0 + 2 * u1;
        lemma_comb_zero(2, r0, -1, r1, 0, 0, 0, 0);
        lemma_comb_zero(-1, r0, 2, r1, 0, 0, 0, 0);
        lemma_cancel_const(u0, 3);
        lemma_cancel_const(u1, 3);
        lemma_from_diff(x[0], x2[0]);
        lemma_from_diff(x[1], x2[1]);
    } else if t == 3 {
        assert(e[0] == e2[0] && e[1] == e2[1] && e[2] == e2[2]);
        let s = x[0] + x[1] + x[2];
        let s2 = x2[0] + x2[1] + x2[2];
        let u0 = x[0] - x2[0];
        let u1 = x[1] - x2[1];
        let u2 = x[2] - x2[2];
        lemma_diff_zero(x[0] + s, x2[0] + s2);
        lemma_diff_zero(x[1] + s, x2[1] + s2);
        lemma_diff_zero(x[2] + s, x2[2] + s2);
        let r0 = x[0] + s - (x2[0] + s2);
        let r1 = x[1] + s - (x2[1] + s2);
        let r2 = x[2] + s - (x2[2] + s2);
        lemma_comb_zero(3, r0, -1, r1, -1, r2, 0, 0);
        lemma_comb_zero(-1, r0, 3, r1, -1, r2, 0, 0);
        lemma_comb_zero(-1, r0, -1, r1, 3, r2, 0, 0);
        lemma_cancel_const(u0, 4);
        lemma_cancel_const(u1, 4);
        lemma_cancel_const(u2, 4);
        lemma_from_diff(x[0], x2[0]);
        lemma_from_diff(x[1], x2[1]);
        lemma_from_diff(x[2], x2[2]);
    } else if t == 4 {
        assert forall|j: int| 0 <= j < 4 implies #[trigger] m4_row(x, j) == m4_row(x2, j) by {
            assert(e[j] == e2[j]);
        }
        lemma_m4_spec_injective(x, x2, 1);
    } else {
        let k = t / 4;
        assert(4 * k == t && 2 <= k <= 6);
        let y = m4_spec(x, k);
        let y2 = m4_spec(x2, k);
        lemma_external_lane(t, x, x2, 0);
        lemma_external_lane(t, x, x2, 1);
        lemma_external_lane(t, x, x2, 2);
        lemma_external_lane(t, x, x2, 3);
        assert forall|i: int| 0 <= i < t implies #[trigger] m4_row(x, i) == m4_row(x2, i) by {
            let j = i / 4;
            let l = i % 4;
            lemma_fundamental_div_mod(i, 4);
            assert(i == 4 * j + l);
            if l == 0 {
                assert((y[4 * j + 0] - y2[4 * j + 0]) % p() == 0);
            } else if l == 1 {
                assert((y[4 * j + 1] - y2[4 * j + 1]) % p() == 0);
            } else if l == 2 {
                assert((y[4 * j + 2] - y2[4 * j + 2]) % p() == 0);
            } else {
                assert((y[4 * j + 3] - y2[4 * j + 3]) % p() == 0);
            }
            lemma_from_diff(y[i], y2[i]);
            lemma_mod_bound(5 * x[i - l] + 7 * x[i - l + 1] + x[i - l + 2] + 3 * x[i - l + 3], p());
            let a = m4_row(x, i);
            let b = m4_row(x2, i);
            assert(0 <= a < p() && 0 <= b < p());
            lemma_small_mod(a as nat, p() as nat);
            lemma_small_mod(b as nat, p() as nat);
        }
        lemma_m4_spec_injective(x, x2, k);
    }
}

/// The internal matrix `diag(d) + (all ones)` of width `t >= 4` has every diagonal entry
/// `d_i` invertible and `1 + sum 1/d_i` invertible, which makes it invertible; the
/// matrices of widths 2 and 3 are fixed and invertible.
pub open spec fn internal_invertible(t: int, diag: Seq<int>) -> bool {
    t >= 4 ==> {
        &&& diag.len() >= t
        &&& forall|i: int| 0 <= i < t ==> is_invertible(#[trigger] diag[i])
        &&& is_invertible(1 + fsum(t as nat, |i: int| inv_spec(diag[i])))
    }
}

/// The internal linear layer is injective on states of its width when its matrix is
/// invertible: equal outputs come only from states that agree modulo p.
pub proof fn lemma_internal_injective(t: int, x: Seq<int>, x2: Seq<int>, diag: Seq<int>)
    requires
        supported_width(t),
        internal_invertible(t, diag),
        x.len() == t,
        x2.len() == t,
        internal_spec(t, x, diag) == internal_spec(t, x2, diag),
    ensures
        forall|i: int| 0 <= i < t ==> #[trigger] x[i] % p() == x2[i] % p(),
{
    let o = internal_spec(t, x, diag);
    let o2 = internal_spec(t, x2, diag);
    if t == 2 {
        assert(o[0] == o2[0] && o[1] == o2[1]);
        let u0 = x[0] - x2[0];
        let u1 = x[1] - x2[1];
        lemma_diff_zero(2 * x[0] + x[1], 2 * x2[0] + x2[1]);
        lemma_diff_zero(x[0] + 3 * x[1], x2[0] + 3 * x2[1]);
        let r0 = 2 * u0 + u1;
        let r1 = u0 + 3 * u1;
        lemma_comb_zero(3, r0, -1, r1, 0, 0, 0, 0);
        lemma_comb_zero(-1, r0, 2, r1, 0, 0, 0, 0);
        lemma_cancel_const(u0, 5);
        lemma_cancel_const(u1, 5);
        lemma_from_diff(x[0], x2[0]);
        lemma_from_diff(x[1], x2[1]);
    } else if t == 3 {
        assert(o[0] == o2[0] && o[1] == o2[1] && o[2] == o2[2]);
        let u0 = x[0] - x2[0];
        let u1 = x[1] - x2[1];
        let u2 = x[2] - x2[2];
        lemma_diff_zero(2 * x[0] + x[1] + x[2], 2 * x2[0] + x2[1] + x2[2]);
        lemma_diff_zero(x[0] + 2 * x[1] + x[2], x2[0] + 2 * x2[1] + x2[2]);
        lemma_diff_zero(x[0] + x[1] + 3 * x[2], x2[0] + x2[1] + 3 * x2[2]);
        let r0 = 2 * u0 + u1 + u2;
        let r1 = u0 + 2 * u1 + u2;
        let r2 = u0 + u1 + 3 * u2;
        lemma_comb_zero(5, r0, -2, r1, -1, r2, 0, 0);
        lemma_comb_zero(-2, r0, 5, r1, -1, r2, 0, 0);
        lemma_comb_zero(-1, r0, -1, r1, 3, r2, 0, 0);
        lemma_cancel_const(u0, 7);
        lemma_cancel_const(u1, 7);
        lemma_cancel_const(u2, 7);
        lemma_from_diff(x[0], x2[0]);
        lemma_from_diff(x[1], x2[1]);
        lemma_from_diff(x[2], x2[2]);
    } else {
        let n = t as nat;
        let sx = fsum(n, |k: int| x[k]);
        let sx2 = fsum(n, |k: int| x2[k]);
        let tt = sx - sx2;
        let einv = |i: int| inv_spec(diag[i]);
        let big_e = fsum(n, einv);
        // each output gives u_i d_i + T = 0, so u_i + T / d_i = 0
        assert forall|i: int| 0 <= i < t implies ((#[trigger] x[i] - x2[i]) * diag[i] + tt) % p() == 0
            && ((x[i] - x2[i]) + tt * einv(i)) % p() == 0 by {
            assert(o[i] == o2[i]);
            lemma_diff_zero(x[i] * diag[i] + sx, x2[i] * diag[i] + sx2);
            lemma_mul_is_distributive_sub_other_way(diag[i], x[i], x2[i]);
            let u = x[i] - x2[i];
            let d = diag[i];
            let e = einv(i);
            lemma_inverse_spec(d);
            lemma_mul_mod_noop_left(u * d + tt, e, p());
            lemma_small_mod(0, p() as nat);
            assert(0 * e == 0);
            assert((u * d + tt) * e == u * (d * e) + tt * e) by (nonlinear_arith);
            lemma_add_mod_noop(u * (d * e), tt * e, p());
            lemma_mul_mod_noop_right(u, d * e, p());
            assert(u * 1 == u);
            lemma_add_mod_noop(u, tt * e, p());
        }
        // summing: T + T E = 0, so T = 0
        let g = |i: int| (x[i] - x2[i]) + tt * einv(i);
        lemma_fsum_at_most_one(n, g, -1, 0);
        lemma_small_mod(0, p() as nat);
        let ud = |i: int| x[i] - x2[i];
        let w = |i: int| tt * einv(i);
        lemma_fsum_add(n, ud, w);
        lemma_fsum_ext(n, |i: int| ud(i) + w(i), g);
        lemma_fsum_diff_const(n, |k: int| x[k], |k: int| x2[k], 0);
        lemma_fsum_ext(n, |i: int| (|k: int| x[k])(i) - (|k: int| x2[k])(i) + 0, ud);
        let w2 = |i: int| einv(i) * tt;
        lemma_fsum_scale(n, einv, w2, tt);
        lemma_fsum_ext(n, w, w2);
        assert(fsum(n, g) == tt + big_e * tt);
        assert(tt + big_e * tt == tt * (1 + big_e)) by (nonlinear_arith);
        lemma_cancel_invertible(tt, 1 + big_e);
        assert forall|i: int| 0 <= i < t implies #[trigger] x[i] % p() == x2[i] % p() by {
            let u = x[i] - x2[i];
            assert((u * diag[i] + tt) % p() == 0);
            lemma_add_mod_noop(u * diag[i], tt, p());
            lemma_sub_mod_noop(u * diag[i] + tt, tt, p());
            assert((u * diag[i]) % p() == 0);
            lemma_cancel_invertible(u, diag[i]);
            lemma_from_diff(x[i], x2[i]);
        }
    }
}

/// Each round keeps the width and leaves reduced values.
proof fn lemma_round_shape(pp: Poseidon2Params, s: Seq<int>, r: int)
    requires
        pp.wf(),
        0 <= r < pp.rounds,
        s.len() == pp.t,
    ensures
        round_spec(pp, s, r).len() == pp.t,
        is_reduced(round_spec(pp, s, r)),
{
    let t = pp.t as int;
    let out = round_spec(pp, s, r);
    if r < pp.rounds_f_beginning || r >= pp.rounds_f_beginning + pp.rounds_p {
        assert(pp.round_constants@[r]@.len() >= t);
        let a = sbox_all_spec(pp.d as int, add_rc_spec(s, pp.rc(r)));
        assert(a.len() == t);
    }
    assert forall|i: int| 0 <= i < out.len() implies 0 <= #[trigger] out[i] < p() by {
        let full = r < pp.rounds_f_beginning || r >= pp.rounds_f_beginning + pp.rounds_p;
        if full {
            let a = sbox_all_spec(pp.d as int, add_rc_spec(s, pp.rc(r)));
            if t >= 8 {
                let y = m4_spec(a, t / 4);
                lemma_mod_bound(y[i] + column_sum(y, t / 4, i % 4), p());
            }
        } else {
            let st = s.update(0, sbox_spec(pp.d as int, (s[0] + pp.rc(r)[0]) % p()));
            if t >= 4 {
                lemma_mod_bound(st[i] * vals(pp.mat_internal_diag_m_1@)[i] + fsum(t as nat, |k: int| st[k]), p());
            }
        }
    }
}

/// A round with the S-box `x^7` and an invertible internal matrix is injective on
/// reduced states of the width.
proof fn lemma_round_injective(pp: Poseidon2Params, s: Seq<int>, s2: Seq<int>, r: int)
    requires
        pp.wf(),
        pp.d == 7,
        internal_invertible(pp.t as int, vals(pp.mat_internal_diag_m_1@)),
        0 <= r < pp.rounds,
        s.len() == pp.t,
        s2.len() == pp.t,
        is_reduced(s),
        is_reduced(s2),
        round_spec(pp, s, r) == round_spec(pp, s2, r),
    ensures
        s == s2,
{
    let t = pp.t as int;
    let rc = pp.rc(r);
    if r < pp.rounds_f_beginning || r >= pp.rounds_f_beginning + pp.rounds_p {
        assert(pp.round_constants@[r]@.len() >= t);
        let a = add_rc_spec(s, rc);
        let a2 = add_rc_spec(s2, rc);
        let b = sbox_all_spec(7, a);
        let b2 = sbox_all_spec(7, a2);
        lemma_external_injective(t, b, b2);
        assert forall|i: int| 0 <= i < t implies #[trigger] s[i] == s2[i] by {
            assert(b[i] % p() == b2[i] % p());
            lemma_mod_twice(pow(a[i], 7), p());
            lemma_mod_twice(pow(a2[i], 7), p());
            lemma_mod_bound(s[i] + rc[i], p());
            lemma_mod_bound(s2[i] + rc[i], p());
            lemma_sbox7_injective(a[i], a2[i]);
            lemma_diff_zero(s[i] + rc[i], s2[i] + rc[i]);
            lemma_from_diff(s[i], s2[i]);
            lemma_small_mod(s[i] as nat, p() as nat);
            lemma_small_mod(s2[i] as nat, p() as nat);
        }
    } else {
        let st = s.update(0, sbox_spec(7, (s[0] + rc[0]) % p()));
        let st2 = s2.update(0, sbox_spec(7, (s2[0] + rc[0]) % p()));
        lemma_internal_injective(t, st, st2, vals(pp.mat_internal_diag_m_1@));
        assert forall|i: int| 0 <= i < t implies #[trigger] s[i] == s2[i] by {
            assert(st[i] % p() == st2[i] % p());
            if i == 0 {
                let a = (s[0] + rc[0]) % p();
                let a2 = (s2[0] + rc[0]) % p();
                lemma_mod_twice(pow(a, 7), p());
                lemma_mod_twice(pow(a2, 7), p());
                lemma_mod_bound(s[0] + rc[0], p());
                lemma_mod_bound(s2[0] + rc[0], p());
                lemma_sbox7_injective(a, a2);
                lemma_diff_zero(s[0] + rc[0], s2[0] + rc[0]);
                lemma_from_diff(s[0], s2[0]);
            }
            lemma_small_mod(s[i] as nat, p() as nat);
            lemma_small_mod(s2[i] as nat, p() as nat);
        }
    }
    assert(s =~= s2);
}

/// The first `n` rounds keep the width and leave reduced values.
proof fn lemma_rounds_shape(pp: Poseidon2Params, s: Seq<int>, n: nat)
    requires
        pp.wf(),
        n <= pp.rounds,
        s.len() == pp.t,
        is_reduced(s),
    ensures
        rounds_spec(pp, s, n).len() == pp.t,
        is_reduced(rounds_spec(pp, s, n)),
    decreases n,
{
    if n > 0 {
        lemma_rounds_shape(pp, s, (n - 1) as nat);
        lemma_round_shape(pp, rounds_spec(pp, s, (n - 1) as nat), n - 1);
    }
}

/// The first `n` rounds are injective on reduced states of the width.
proof fn lemma_rounds_injective(pp: Poseidon2Params, s: Seq<int>, s2: Seq<int>, n: nat)
    requires
        pp.wf(),
        pp.d == 7,
        internal_invertible(pp.t as int, vals(pp.mat_internal_diag_m_1@)),
        n <= pp.rounds,
        s.len() == pp.t,
        s2.len() == pp.t,
        is_reduced(s),
        is_reduced(s2),
        rounds_spec(pp, s, n) == rounds_spec(pp, s2, n),
    ensures
        s == s2,
    decreases n,
{
    if n > 0 {
        let m = (n - 1) as nat;
        lemma_rounds_shape(pp, s, m);
        lemma_rounds_shape(pp, s2, m);
        lemma_round_injective(pp, rounds_spec(pp, s, m), rounds_spec(pp, s2, m), m as int);
        lemma_rounds_injective(pp, s, s2, m);
    }
}

/// Poseidon2 is a permutation: with the S-box `x^7` and an invertible internal matrix,
/// two states of field elements with the same image under the permutation are the same
/// state.
pub proof fn lemma_permutation_injective(pp: Poseidon2Params, x: Seq<FpBabyBear>, x2: Seq<FpBabyBear>)
    requires
        pp.wf(),
        pp.d == 7,
        internal_invertible(pp.t as int, vals(pp.mat_internal_diag_m_1@)),
        x.len() == pp.t,
        x2.len() == pp.t,
        permutation_spec(pp, vals(x)) == permutation_spec(pp, vals(x2)),
    ensures
        vals(x) == vals(x2),
{
    let t = pp.t as int;
    let v = vals(x);
    let v2 = vals(x2);
    let e = external_spec(t, v);
    let e2 = external_spec(t, v2);
    assert(e.len() == t && e2.len() == t);
    assert forall|i: int| 0 <= i < t implies 0 <= #[trigger] e[i] < p() && 0 <= e2[i] < p() by {
        if t >= 8 {
            let y = m4_spec(v, t / 4);
            let y2 = m4_spec(v2, t / 4);
            lemma_mod_bound(y[i] + column_sum(y, t / 4, i % 4), p());
            lemma_mod_bound(y2[i] + column_sum(y2, t / 4, i % 4), p());
        }
    }
    lemma_rounds_injective(pp, e, e2, pp.rounds as nat);
    lemma_external_injective(t, v, v2);
    assert forall|i: int| 0 <= i < t implies #[trigger] v[i] == v2[i] by {
        lemma_small_mod(v[i] as nat, p() as nat);
        lemma_small_mod(v2[i] as nat, p() as nat);
    }
    assert(v =~= v2);
}

} // verus!
