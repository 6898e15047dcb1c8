//! Laws of the number-theoretic transform: orthogonality of the roots of unity,
//! and the inverse transform undoing the forward one.
use crate::fft::{
    dft, dft_sum, inv_pow2, inv_root_of_unity, is_small_pow2, lemma_pow2_injective,
    lemma_pow2_inverse, log2_spec, ntt_of, ntt_result,
};
use crate::field_babybear::{lemma_root_of_unity, p, root_of_unity_spec};
use vstd::arithmetic::div_mod::*;
use vstd::arithmetic::mul::*;
use vstd::arithmetic::power::*;
use vstd::arithmetic::power2::*;
use vstd::prelude::*;

verus! {

/// `sum_{i < n} f(i)`.
pub open spec fn fsum(n: nat, f: spec_fn(int) -> int) -> int
    decreases n,
{
    if n == 0 {
        0
    } else {
        fsum((n - 1) as nat, f) + f(n - 1)
    }
}

/// `sum_{k < n} u^k`.
pub open spec fn geom(u: int, n: nat) -> int
    decreases n,
{
    if n == 0 {
        0
    } else {
        geom(u, (n - 1) as nat) + pow(u, (n - 1) as nat)
    }
}

pub(crate) proof fn lemma_fsum_ext(n: nat, f: spec_fn(int) -> int, g: spec_fn(int) -> int)
    requires
        forall|i: int| 0 <= i < n ==> #[trigger] f(i) == g(i),
    ensures
        fsum(n, f) == fsum(n, g),
    decreases n,
{
    if n > 0 {
        lemma_fsum_ext((n - 1) as nat, f, g);
    }
}

pub(crate) proof fn lemma_fsum_congr(n: nat, f: spec_fn(int) -> int, g: spec_fn(int) -> int)
    requires
        forall|i: int| 0 <= i < n ==> #[trigger] f(i) % p() == g(i) % p(),
    ensures
        fsum(n, f) % p() == fsum(n, g) % p(),
    decreases n,
{
    if n > 0 {
        lemma_fsum_congr((n - 1) as nat, f, g);
        lemma_add_mod_noop(fsum((n - 1) as nat, f), f(n - 1), p());
        lemma_add_mod_noop(fsum((n - 1) as nat, g), g(n - 1), p());
    }
}

/// A constant factor moves out of a sum.
pub(crate) proof fn lemma_fsum_scale(n: nat, f: spec_fn(int) -> int, h: spec_fn(int) -> int, c: int)
    requires
        forall|i: int| 0 <= i < n ==> #[trigger] h(i) == f(i) * c,
    ensures
        fsum(n, h) == fsum(n, f) * c,
    decreases n,
{
    if n > 0 {
        lemma_fsum_scale((n - 1) as nat, f, h, c);
        lemma_mul_is_distributive_add_other_way(c, fsum((n - 1) as nat, f), f(n - 1));
    }
}

/// Exchanging the order of a double sum.
pub(crate) proof fn lemma_fsum_swap(n1: nat, n2: nat, f: spec_fn(int, int) -> int)
    ensures
        fsum(n1, |i: int| fsum(n2, |j: int| f(i, j))) == fsum(n2, |j: int| fsum(n1, |i: int| f(i, j))),
    decreases n1,
{
    if n1 > 0 {
        let m = (n1 - 1) as nat;
        lemma_fsum_swap(m, n2, f);
        let rows = |i: int| fsum(n2, |j: int| f(i, j));
        let cols_m = |j: int| fsum(m, |i: int| f(i, j));
        let cols = |j: int| fsum(n1, |i: int| f(i, j));
        let last = |j: int| f(m as int, j);
        assert(fsum(n1, rows) == fsum(m, rows) + rows(m as int));
        assert(fsum(m, rows) == fsum(n2, cols_m));
        lemma_fsum_add(n2, cols_m, last);
        assert forall|j: int| 0 <= j < n2 implies #[trigger] cols(j) == cols_m(j) + last(j) by {
            assert(fsum(n1, |i: int| f(i, j)) == fsum(m, |i: int| f(i, j)) + f(m as int, j));
        }
        lemma_fsum_ext(n2, |j: int| cols_m(j) + last(j), cols);
        assert(rows(m as int) == fsum(n2, last));
    } else {
        lemma_fsum_zeros(n2, |j: int| fsum(n1, |i: int| f(i, j)));
    }
}

pub(crate) proof fn lemma_fsum_zeros(n: nat, f: spec_fn(int) -> int)
    requires
        forall|i: int| 0 <= i < n ==> #[trigger] f(i) == 0,
    ensures
        fsum(n, f) == 0,
    decreases n,
{
    if n > 0 {
        lemma_fsum_zeros((n - 1) as nat, f);
    }
}

pub(crate) proof fn lemma_fsum_add(n: nat, f: spec_fn(int) -> int, g: spec_fn(int) -> int)
    ensures
        fsum(n, |i: int| f(i) + g(i)) == fsum(n, f) + fsum(n, g),
    decreases n,
{
    if n > 0 {
        lemma_fsum_add((n - 1) as nat, f, g);
    }
}

/// A sum whose terms vanish modulo p except at `j`.
proof fn lemma_fsum_single(n: nat, f: spec_fn(int) -> int, j: int)
    requires
        0 <= j < n,
        forall|i: int| 0 <= i < n && i != j ==> #[trigger] f(i) % p() == 0,
    ensures
        fsum(n, f) % p() == f(j) % p(),
    decreases n,
{
    let m = (n - 1) as nat;
    lemma_add_mod_noop(fsum(m, f), f(m as int), p());
    if j < m {
        lemma_fsum_single(m, f, j);
        lemma_small_mod(0, p() as nat);
        lemma_mod_twice(f(j), p());
    } else {
        lemma_fsum_zero(m, f);
        lemma_mod_twice(f(j), p());
    }
}

proof fn lemma_fsum_zero(n: nat, f: spec_fn(int) -> int)
    requires
        forall|i: int| 0 <= i < n ==> #[trigger] f(i) % p() == 0,
    ensures
        fsum(n, f) % p() == 0,
    decreases n,
{
    if n > 0 {
        lemma_fsum_zero((n - 1) as nat, f);
        lemma_add_mod_noop(fsum((n - 1) as nat, f), f(n - 1), p());
        lemma_small_mod(0, p() as nat);
    } else {
        lemma_small_mod(0, p() as nat);
    }
}

/// A strided transform sum written as a plain sum.
proof fn lemma_dft_sum_as_fsum(x: Seq<int>, len: nat, w: int, k: nat)
    ensures
        dft_sum(x, 0, 1, len, w, k) == fsum(len, |m: int| x[m] * pow(w, (m * k) as nat)),
    decreases len,
{
    if len > 0 {
        lemma_dft_sum_as_fsum(x, (len - 1) as nat, w, k);
    }
}

proof fn lemma_geom_as_fsum(u: int, n: nat)
    ensures
        geom(u, n) == fsum(n, |k: int| pow(u, k as nat)),
    decreases n,
{
    if n > 0 {
        lemma_geom_as_fsum(u, (n - 1) as nat);
    }
}

proof fn lemma_geom_shift(u: int, a: nat, b: nat)
    ensures
        geom(u, a + b) == geom(u, a) + pow(u, a) * geom(u, b),
    decreases b,
{
    if b > 0 {
        lemma_geom_shift(u, a, (b - 1) as nat);
        lemma_pow_adds(u, a, (b - 1) as nat);
        assert((a + b - 1) as nat == a + (b - 1) as nat);
        lemma_mul_is_distributive_add(pow(u, a), geom(u, (b - 1) as nat), pow(u, (b - 1) as nat));
    }
}

proof fn lemma_geom_mod(u: int, n: nat)
    ensures
        geom(u, n) % p() == geom(u % p(), n) % p(),
    decreases n,
{
    if n > 0 {
        lemma_geom_mod(u, (n - 1) as nat);
        lemma_pow_mod_noop(u, (n - 1) as nat, p());
        lemma_add_mod_noop(geom(u, (n - 1) as nat), pow(u, (n - 1) as nat), p());
        lemma_add_mod_noop(geom(u % p(), (n - 1) as nat), pow(u % p(), (n - 1) as nat), p());
    }
}

proof fn lemma_geom_one(u: int, n: nat)
    requires
        u % p() == 1,
    ensures
        geom(u, n) % p() == (n as int) % p(),
    decreases n,
{
    if n > 0 {
        lemma_geom_one(u, (n - 1) as nat);
        lemma_pow_mod_noop(u, (n - 1) as nat, p());
        lemma1_pow((n - 1) as nat);
        lemma_small_mod(1, p() as nat);
        lemma_add_mod_noop(geom(u, (n - 1) as nat), pow(u, (n - 1) as nat), p());
        lemma_add_mod_noop((n - 1) as int, 1, p());
    }
}

proof fn lemma_neg_one_pow(d: nat)
    ensures
        pow(p() - 1, d) % p() == (if d % 2 == 1 {
            p() - 1
        } else {
            1
        }),
    decreases d,
{
    if d == 0 {
        lemma_pow0(p() - 1);
        lemma_small_mod(1, p() as nat);
    } else {
        lemma_neg_one_pow((d - 1) as nat);
        lemma_pow_adds(p() - 1, (d - 1) as nat, 1);
        lemma_pow1(p() - 1);
        lemma_mul_mod_noop_left(pow(p() - 1, (d - 1) as nat), p() - 1, p());
        assert(((p() - 1) * (p() - 1)) % p() == 1) by (nonlinear_arith);
        lemma_small_mod((p() - 1) as nat, p() as nat);
        assert(1 * (p() - 1) == p() - 1);
    }
}

/// Orthogonality: the powers of a nontrivial power of a root of unity sum to zero.
pub proof fn lemma_orthogonality(lg: nat, d: nat)
    requires
        lg <= 27,
        d % pow2(lg) != 0,
    ensures
        geom(pow(root_of_unity_spec(lg), d), pow2(lg)) % p() == 0,
    decreases lg,
{
    lemma2_to64();
    if lg == 0 {
        assert(d % 1 == 0);
    }
    lemma_root_of_unity(lg);
    let w = root_of_unity_spec(lg);
    let n = pow2(lg);
    let h = pow2((lg - 1) as nat);
    lemma_pow2_unfold(lg);
    lemma_pow2_pos((lg - 1) as nat);
    let u = pow(w, d);
    lemma_geom_shift(u, h, h);
    let g = geom(u, h);
    if d % 2 == 1 {
        // u^h == (w^h)^d == (-1)^d == -1
        lemma_pow_multiplies(w, d, h);
        lemma_pow_multiplies(w, h, d);
        assert(d * h == h * d) by (nonlinear_arith);
        lemma_pow_mod_noop(pow(w, h), d, p());
        lemma_neg_one_pow(d);
        assert(pow(u, h) % p() == p() - 1);
        lemma_mod_lin_zero(g, pow(u, h));
    } else {
        let d2 = (d / 2) as nat;
        assert(d == 2 * d2);
        if lg == 1 {
            assert(d % 2 == 0);
        }
        assert(d2 % h != 0) by {
            if d2 % h == 0 {
                lemma_fundamental_div_mod(d2 as int, h as int);
                assert(d == n * (d2 / h)) by (nonlinear_arith)
                    requires
                        d == 2 * d2,
                        d2 == h * (d2 / h),
                        n == 2 * h,
                ;
                lemma_mod_multiples_basic(d2 as int / h as int, n as int);
                lemma_mul_is_commutative(n as int, d2 as int / h as int);
            }
        }
        lemma_orthogonality((lg - 1) as nat, d2);
        lemma_root_of_unity((lg - 1) as nat);
        let w2 = root_of_unity_spec((lg - 1) as nat);
        // u == (w*w)^d2 == w2^d2 (mod p)
        lemma_pow_multiplies(w, 2, d2);
        lemma_square_is_pow2(w);
        lemma_pow_mod_noop(w * w, d2, p());
        let u2 = pow(w2, d2);
        assert(u % p() == u2 % p());
        lemma_geom_mod(u, n);
        lemma_geom_mod(u2, n);
        lemma_geom_mod(u, h);
        lemma_geom_mod(u2, h);
        lemma_geom_shift(u2, h, h);
        // u2^h == (w2^h)^d2 == 1
        lemma_pow_multiplies(w2, d2, h);
        lemma_pow_multiplies(w2, h, d2);
        assert(d2 * h == h * d2) by (nonlinear_arith);
        lemma_pow_mod_noop(pow(w2, h), d2, p());
        lemma1_pow(d2);
        lemma_small_mod(1, p() as nat);
        assert(pow(u2, h) % p() == 1);
        let g2 = geom(u2, h);
        assert(g2 % p() == 0);
        lemma_mul_mod_noop(pow(u2, h), g2, p());
        lemma_small_mod(0, p() as nat);
        assert((pow(u2, h) * g2) % p() == 0);
        lemma_add_mod_noop(g2, pow(u2, h) * g2, p());
        assert(geom(u2, n) % p() == 0);
    }
}

proof fn lemma_mod_lin_zero(g: int, uh: int)
    requires
        uh % p() == p() - 1,
    ensures
        (g + uh * g) % p() == 0,
{
    lemma_mul_mod_noop_left(uh, g, p());
    lemma_add_mod_noop(g, uh * g, p());
    lemma_add_mod_noop(g, (p() - 1) * g, p());
    assert(g + (p() - 1) * g == p() * g) by (nonlinear_arith);
    lemma_mod_multiples_basic(g, p());
    lemma_mul_is_commutative(g, p());
}

/// `(a*m + b*j) mod n` vanishes only on the diagonal `m == j`.
pub open spec fn diagonal_exponents(n: nat, a: nat, b: nat, j: nat) -> bool {
    forall|m: nat| m < n ==> (#[trigger] ((a * m + b * j) % n) == 0 <==> m == j)
}

/// Transforming twice, at powers `a` and `b` of a root of unity whose exponents cancel
/// only on the diagonal, gives `n` times the input (times the factor `c` of the first pass).
proof fn lemma_double_dft(x: Seq<int>, y: Seq<int>, lg: nat, a: nat, b: nat, c: int, j: nat)
    requires
        lg <= 27,
        x.len() == pow2(lg),
        y.len() == pow2(lg),
        j < pow2(lg),
        forall|k: int|
            0 <= k < y.len() ==> #[trigger] y[k] % p() == (c * dft(
                x,
                pow(root_of_unity_spec(lg), a) % p(),
                k as nat,
            )) % p(),
        diagonal_exponents(pow2(lg), a, b, j),
    ensures
        dft(y, pow(root_of_unity_spec(lg), b) % p(), j) % p() == (c * pow2(lg) * x[j as int]) % p(),
{
    let n = pow2(lg);
    let w = root_of_unity_spec(lg);
    let wa = pow(w, a) % p();
    let wb = pow(w, b) % p();
    let ff = |k: int, m: int| c * x[m] * pow(w, (k * (a * m + b * j)) as nat);
    let lhs_terms = |k: int| y[k] * pow(wb, (k * j) as nat);
    let inner = |k: int| fsum(n, |m: int| ff(k, m));
    lemma_dft_sum_as_fsum(y, n, wb, j);
    assert(dft(y, wb, j) == fsum(n, lhs_terms));
    // each outer term is congruent to a sum over the inner index
    assert forall|k: int| 0 <= k < n implies #[trigger] lhs_terms(k) % p() == inner(k) % p() by {
        let kk = k as nat;
        let dk = dft(x, wa, kk);
        lemma_dft_sum_as_fsum(x, n, wa, kk);
        let g = |m: int| x[m] * pow(w, (a * (m * kk)) as nat);
        assert forall|m: int| 0 <= m < n implies #[trigger] (x[m] * pow(wa, (m * kk) as nat)) % p()
            == g(m) % p() by {
            lemma_mul_nonnegative(m, kk as int);
            lemma_pow_mod_noop(pow(w, a), (m * kk) as nat, p());
            lemma_pow_multiplies(w, a, (m * kk) as nat);
            lemma_mul_mod_noop_right(x[m], pow(wa, (m * kk) as nat), p());
            lemma_mul_mod_noop_right(x[m], pow(w, (a * (m * kk)) as nat), p());
        }
        lemma_fsum_congr(n, |m: int| x[m] * pow(wa, (m * kk) as nat), g);
        let s = fsum(n, g);
        assert(dk % p() == s % p());
        // pow(wb, k j) == pow(w, b k j)
        lemma_mul_nonnegative(k, j as int);
        lemma_pow_mod_noop(pow(w, b), (k * j) as nat, p());
        lemma_pow_multiplies(w, b, (k * j) as nat);
        let pk = pow(w, (b * (k * j)) as nat);
        assert(pow(wb, (k * j) as nat) % p() == pk % p());
        // y[k] * wb^(kj) == c * s * pk  (mod p)
        lemma_mul_mod_noop(y[k], pow(wb, (k * j) as nat), p());
        lemma_mul_mod_noop(c * dk, pk, p());
        lemma_mul_mod_noop(c, dk, p());
        lemma_mul_mod_noop(c, s, p());
        lemma_mul_mod_noop(c * s, pk, p());
        lemma_mod_twice(c * dk, p());
        lemma_mod_twice(c * s, p());
        assert((c * dk) % p() == (c * s) % p());
        assert(lhs_terms(k) % p() == (c * s * pk) % p());
        // c * s * pk == sum of ff(k, m)
        assert(c * s * pk == s * (c * pk)) by (nonlinear_arith);
        assert forall|m: int| 0 <= m < n implies #[trigger] ff(k, m) == g(m) * (c * pk) by {
            lemma_mul_nonnegative(m, kk as int);
            lemma_mul_nonnegative(a as int, m * kk);
            lemma_mul_nonnegative(b as int, k * j);
            lemma_pow_adds(w, (a * (m * kk)) as nat, (b * (k * j)) as nat);
            assert(k * (a * m + b * j) == a * (m * kk) + b * (k * j)) by (nonlinear_arith)
                requires
                    kk == k,
            ;
            assert(c * x[m] * (pow(w, (a * (m * kk)) as nat) * pk) == x[m] * pow(
                w,
                (a * (m * kk)) as nat,
            ) * (c * pk)) by (nonlinear_arith);
        }
        lemma_fsum_scale(n, g, |m: int| ff(k, m), c * pk);
    }
    lemma_fsum_congr(n, lhs_terms, inner);
    lemma_fsum_swap(n, n, ff);
    // each column is a geometric sum
    let col = |m: int| fsum(n, |k: int| ff(k, m));
    assert forall|m: int| 0 <= m < n implies #[trigger] col(m) == geom(
        pow(w, (a * m + b * j) as nat),
        n,
    ) * (c * x[m]) by {
        let d = (a * m + b * j) as nat;
        lemma_mul_nonnegative(a as int, m);
        lemma_mul_nonnegative(b as int, j as int);
        let u = pow(w, d);
        lemma_geom_as_fsum(u, n);
        assert forall|k: int| 0 <= k < n implies #[trigger] ff(k, m) == pow(u, k as nat) * (c
            * x[m]) by {
            lemma_pow_multiplies(w, d, k as nat);
            assert(d * (k as nat) == k * (a * m + b * j)) by (nonlinear_arith)
                requires
                    d == a * m + b * j,
                    k >= 0,
            ;
            assert(c * x[m] * pow(u, k as nat) == pow(u, k as nat) * (c * x[m])) by (
            nonlinear_arith);
        }
        lemma_fsum_scale(n, |k: int| pow(u, k as nat), |k: int| ff(k, m), c * x[m]);
    }
    // off the diagonal the columns vanish, on it they give n * c * x[j]
    let colv = |m: int| geom(pow(w, (a * m + b * j) as nat), n) * (c * x[m]);
    lemma_fsum_ext(n, col, colv);
    assert forall|m: int| 0 <= m < n && m != j implies #[trigger] colv(m) % p() == 0 by {
        let d = (a * m + b * j) as nat;
        lemma_mul_nonnegative(a as int, m);
        lemma_mul_nonnegative(b as int, j as int);
        assert((a * (m as nat) + b * j) % n != 0);
        lemma_orthogonality(lg, d);
        lemma_mul_mod_noop_left(geom(pow(w, d), n), c * x[m], p());
        lemma_small_mod(0, p() as nat);
    }
    lemma_fsum_single(n, colv, j as int);
    // on the diagonal: w^d == 1 since n divides d
    let dj = (a * j + b * j) as nat;
    assert((a * j + b * j) % n == 0);
    lemma_fundamental_div_mod(dj as int, n as int);
    let q = (dj / n) as nat;
    lemma_root_of_unity_order(lg);
    lemma_pow_multiplies(w, n, q);
    lemma_pow_mod_noop(pow(w, n), q, p());
    lemma1_pow(q);
    lemma_small_mod(1, p() as nat);
    assert(n * q == dj);
    lemma_geom_one(pow(w, dj), n);
    lemma_mul_mod_noop_left(geom(pow(w, dj), n), c * x[j as int], p());
    lemma_mul_mod_noop_left(n as int, c * x[j as int], p());
    assert((n as int) * (c * x[j as int]) == c * n * x[j as int]) by (nonlinear_arith);
}

/// The root of unity of order 2^lg raised to 2^lg is 1.
proof fn lemma_root_of_unity_order(lg: nat)
    requires
        lg <= 27,
    ensures
        pow(root_of_unity_spec(lg), pow2(lg)) % p() == 1,
{
    if lg == 0 {
        crate::field_babybear::lemma_root_of_unity_zero();
        lemma2_to64();
        lemma_pow1(1);
        lemma_small_mod(1, p() as nat);
    } else {
        lemma_root_of_unity(lg);
    }
}

proof fn lemma_diagonal_at(n: nat, j: nat, m: nat)
    requires
        n >= 1,
        j < n,
        m < n,
    ensures
        ((1 * m + ((n - 1) as nat) * j) % n == 0 <==> m == j),
        ((((n - 1) as nat) * m + 1 * j) % n == 0 <==> m == j),
{
    let diff = m as int - j as int;
    assert(1 * m + ((n - 1) as nat) * j == diff + n * j) by (nonlinear_arith)
        requires
            diff == m - j,
            n >= 1,
    ;
    assert(((n - 1) as nat) * m + 1 * j == -diff + n * m) by (nonlinear_arith)
        requires
            diff == m - j,
            n >= 1,
    ;
    lemma_mod_multiples_vanish(j as int, diff, n as int);
    lemma_mod_multiples_vanish(m as int, -diff, n as int);
    lemma_mul_is_commutative(n as int, j as int);
    lemma_mul_is_commutative(n as int, m as int);
    if diff >= 0 {
        lemma_small_mod(diff as nat, n);
        if diff > 0 {
            lemma_mod_multiples_vanish(1, -diff, n as int);
            lemma_small_mod((n - diff) as nat, n);
        } else {
            lemma_small_mod(0, n);
        }
    } else {
        lemma_small_mod((-diff) as nat, n);
        lemma_mod_multiples_vanish(1, diff, n as int);
        lemma_small_mod((n + diff) as nat, n);
    }
}

proof fn lemma_diagonal(n: nat, j: nat, forward_first: bool)
    requires
        n >= 1,
        j < n,
    ensures
        forward_first ==> diagonal_exponents(n, 1, (n - 1) as nat, j),
        !forward_first ==> diagonal_exponents(n, (n - 1) as nat, 1, j),
{
    assert forall|m: nat| m < n implies (#[trigger] ((1 * m + ((n - 1) as nat) * j) % n) == 0
        <==> m == j) by {
        lemma_diagonal_at(n, j, m);
    }
    assert forall|m: nat| m < n implies (#[trigger] ((((n - 1) as nat) * m + 1 * j) % n) == 0
        <==> m == j) by {
        lemma_diagonal_at(n, j, m);
    }
}

/// The inverse transform undoes the forward transform: for every input of
/// power-of-two length at most 2^27 (with values in the field), transforming and
/// then inverting gives the input back.
pub proof fn lemma_intt_inverts_ntt(x: Seq<int>)
    requires
        is_small_pow2(x.len() as int),
        forall|i: int| 0 <= i < x.len() ==> 0 <= #[trigger] x[i] < p(),
    ensures
        ntt_of(ntt_of(x, false), true) == x,
{
    let n = x.len();
    let lg = choose|k: nat| k <= 27 && pow2(k) == n;
    lemma_pow2_injective(log2_spec(n as int), lg);
    let y = Seq::new(n, |k: int| ntt_result(x, false, k as nat));
    let w = root_of_unity_spec(lg);
    lemma_root_of_unity_order(lg);
    assert(0 <= w < p()) by {
        if lg > 0 {
            lemma_root_of_unity(lg);
        } else {
            crate::field_babybear::lemma_root_of_unity_zero();
        }
    }
    lemma_pow1(w);
    lemma_small_mod(w as nat, p() as nat);
    lemma_pow2_pos(lg);
    lemma_pow2_inverse(lg);
    assert forall|j: int| 0 <= j < n implies #[trigger] ntt_result(y, true, j as nat) == x[j] by {
        lemma_diagonal(n, j as nat, true);
        assert forall|k: int| 0 <= k < y.len() implies #[trigger] y[k] % p() == (1 * dft(
            x,
            pow(w, 1) % p(),
            k as nat,
        )) % p() by {
            lemma_mod_twice(dft(x, w, k as nat), p());
        }
        lemma_double_dft(x, y, lg, 1, (n - 1) as nat, 1, j as nat);
        let d = dft(y, inv_root_of_unity(lg), j as nat);
        assert(d % p() == (1 * n * x[j]) % p());
        lemma_mul_mod_noop_right(inv_pow2(lg), d, p());
        lemma_mul_mod_noop_right(inv_pow2(lg), n * x[j], p());
        assert(inv_pow2(lg) * (n * x[j]) == (inv_pow2(lg) * n) * x[j]) by (nonlinear_arith);
        lemma_mul_mod_noop_left(inv_pow2(lg) * n, x[j], p());
        lemma_mul_is_commutative(inv_pow2(lg), n as int);
        lemma_small_mod(x[j] as nat, p() as nat);
    }
    assert(ntt_of(y, true) =~= x);
}

/// The forward transform undoes the inverse transform.
pub proof fn lemma_ntt_inverts_intt(x: Seq<int>)
    requires
        is_small_pow2(x.len() as int),
        forall|i: int| 0 <= i < x.len() ==> 0 <= #[trigger] x[i] < p(),
    ensures
        ntt_of(ntt_of(x, true), false) == x,
{
    let n = x.len();
    let lg = choose|k: nat| k <= 27 && pow2(k) == n;
    lemma_pow2_injective(log2_spec(n as int), lg);
    let y = Seq::new(n, |k: int| ntt_result(x, true, k as nat));
    let w = root_of_unity_spec(lg);
    lemma_root_of_unity_order(lg);
    assert(0 <= w < p()) by {
        if lg > 0 {
            lemma_root_of_unity(lg);
        } else {
            crate::field_babybear::lemma_root_of_unity_zero();
        }
    }
    lemma_pow1(w);
    lemma_small_mod(w as nat, p() as nat);
    lemma_pow2_pos(lg);
    lemma_pow2_inverse(lg);
    let c = inv_pow2(lg);
    assert forall|j: int| 0 <= j < n implies #[trigger] ntt_result(y, false, j as nat) == x[j] by {
        lemma_diagonal(n, j as nat, false);
        assert forall|k: int| 0 <= k < y.len() implies #[trigger] y[k] % p() == (c * dft(
            x,
            pow(w, (n - 1) as nat) % p(),
            k as nat,
        )) % p() by {
            lemma_mod_twice(c * dft(x, inv_root_of_unity(lg), k as nat), p());
        }
        lemma_double_dft(x, y, lg, (n - 1) as nat, 1, c, j as nat);
        assert(dft(y, w, j as nat) % p() == (c * n * x[j]) % p());
        lemma_mul_mod_noop_left(c * n, x[j], p());
        lemma_mul_is_commutative(c, n as int);
        lemma_small_mod(x[j] as nat, p() as nat);
    }
    assert(ntt_of(y, false) =~= x);
}

/// Terms beyond `m` that vanish do not change a sum.
pub(crate) proof fn lemma_fsum_prefix(n: nat, m: nat, f: spec_fn(int) -> int)
    requires
        m <= n,
        forall|i: int| m <= i < n ==> #[trigger] f(i) == 0,
    ensures
        fsum(n, f) == fsum(m, f),
    decreases n,
{
    if n > m {
        lemma_fsum_prefix((n - 1) as nat, m, f);
    }
}

/// A sum whose terms all vanish modulo p except possibly one at `j` (which need not be
/// in range).
pub(crate) proof fn lemma_fsum_at_most_one(n: nat, f: spec_fn(int) -> int, j: int, v: int)
    requires
        forall|i: int| 0 <= i < n && i != j ==> #[trigger] f(i) % p() == 0,
        0 <= j < n ==> f(j) % p() == v % p(),
        !(0 <= j < n) ==> v % p() == 0,
    ensures
        fsum(n, f) % p() == v % p(),
{
    if 0 <= j < n {
        lemma_fsum_single(n, f, j);
    } else {
        lemma_fsum_zero(n, f);
    }
}

/// The convolution theorem: the inverse transform of the pointwise product of two
/// transforms is `n` times the product polynomial, as long as the product fits.
pub proof fn lemma_convolution(
    x: Seq<int>,
    y: Seq<int>,
    z: Seq<int>,
    lg: nat,
    la: nat,
    lb: nat,
    t: nat,
)
    requires
        lg <= 27,
        x.len() == pow2(lg),
        y.len() == pow2(lg),
        z.len() == pow2(lg),
        la >= 1,
        lb >= 1,
        la + lb - 1 <= pow2(lg),
        forall|i: int| la <= i < pow2(lg) ==> #[trigger] x[i] == 0,
        forall|j: int| lb <= j < pow2(lg) ==> #[trigger] y[j] == 0,
        t < pow2(lg),
        forall|k: int|
            0 <= k < pow2(lg) ==> #[trigger] z[k] % p() == (dft(
                x,
                root_of_unity_spec(lg),
                k as nat,
            ) * dft(y, root_of_unity_spec(lg), k as nat)) % p(),
    ensures
        dft(z, inv_root_of_unity(lg), t) % p() == (pow2(lg) * crate::poly::conv(x, y, t as int))
            % p(),
{
    let n = pow2(lg);
    let w = root_of_unity_spec(lg);
    let v = inv_root_of_unity(lg);
    let e = ((n - 1) * t) as nat;
    lemma_pow2_pos(lg);
    lemma_mul_nonnegative((n - 1) as int, t as int);
    let ff = |k: int, i: int, j: int| x[i] * y[j] * pow(w, (k * (i + j + e)) as nat);
    let lhs_terms = |k: int| z[k] * pow(v, (k * t) as nat);
    let g3 = |k: int, i: int| fsum(n, |j: int| ff(k, i, j));
    let inner = |k: int| fsum(n, |i: int| g3(k, i));
    lemma_dft_sum_as_fsum(z, n, v, t);
    assert(dft(z, v, t) == fsum(n, lhs_terms));
    // A: each outer term is a double sum
    assert forall|k: int| 0 <= k < n implies #[trigger] lhs_terms(k) % p() == inner(k) % p() by {
        let kk = k as nat;
        let xk = dft(x, w, kk);
        let yk = dft(y, w, kk);
        lemma_dft_sum_as_fsum(x, n, w, kk);
        lemma_dft_sum_as_fsum(y, n, w, kk);
        let fx = |i: int| x[i] * pow(w, (i * kk) as nat);
        let fy = |j: int| y[j] * pow(w, (j * kk) as nat);
        lemma_mul_nonnegative(k, t as int);
        lemma_pow_mod_noop(pow(w, (n - 1) as nat), (k * t) as nat, p());
        lemma_pow_multiplies(w, (n - 1) as nat, (k * t) as nat);
        let pv = pow(w, ((n - 1) * (k * t)) as nat);
        assert(pow(v, (k * t) as nat) % p() == pv % p());
        lemma_mul_mod_noop(z[k], pow(v, (k * t) as nat), p());
        lemma_mul_mod_noop(z[k], pv, p());
        lemma_mul_mod_noop(xk * yk, pv, p());
        lemma_mod_twice(xk * yk, p());
        assert(lhs_terms(k) % p() == (xk * yk * pv) % p());
        // xk * yk * pv == sum_i sum_j ff(k, i, j)
        let row = |i: int| fsum(n, |j: int| ff(k, i, j));
        assert forall|i: int| 0 <= i < n implies #[trigger] row(i) == fx(i) * (yk * pv) by {
            assert forall|j: int| 0 <= j < n implies #[trigger] ff(k, i, j) == fy(j) * (pv * fx(
                i,
            )) by {
                lemma_mul_nonnegative(i, kk as int);
                lemma_mul_nonnegative(j, kk as int);
                lemma_pow_adds(w, (i * kk) as nat, (j * kk) as nat);
                lemma_pow_adds(w, (i * kk + j * kk) as nat, ((n - 1) * (k * t)) as nat);
                assert(k * (i + j + e) == i * kk + j * kk + (n - 1) * (k * t)) by (nonlinear_arith)
                    requires
                        kk == k,
                        e == (n - 1) * t,
                ;
                assert(x[i] * y[j] * (pow(w, (i * kk) as nat) * pow(w, (j * kk) as nat) * pv) == y[j]
                    * pow(w, (j * kk) as nat) * (pv * (x[i] * pow(w, (i * kk) as nat)))) by (
                nonlinear_arith);
            }
            lemma_fsum_scale(n, fy, |j: int| ff(k, i, j), pv * fx(i));
            assert(yk * (pv * fx(i)) == fx(i) * (yk * pv)) by (nonlinear_arith);
        }
        lemma_fsum_scale(n, fx, row, yk * pv);
        assert(xk * (yk * pv) == xk * yk * pv) by (nonlinear_arith);
        lemma_fsum_ext(n, row, |i: int| g3(k, i));
    }
    lemma_fsum_congr(n, lhs_terms, inner);
    // B: move the frequency sum innermost
    lemma_fsum_swap(n, n, g3);
    let cell = |i: int, j: int| fsum(n, |k: int| ff(k, i, j));
    let col = |i: int| fsum(n, |k: int| g3(k, i));
    let col2 = |i: int| fsum(n, |j: int| cell(i, j));
    assert forall|i: int| 0 <= i < n implies #[trigger] col(i) == col2(i) by {
        let fij = |a: int, b: int| ff(a, i, b);
        lemma_fsum_swap(n, n, fij);
        let rowk = |a: int| fsum(n, |j: int| ff(a, i, j));
        let rowa = |a: int| fsum(n, |b: int| fij(a, b));
        assert forall|a: int| 0 <= a < n implies #[trigger] rowk(a) == rowa(a) by {
            lemma_fsum_ext(n, |j: int| ff(a, i, j), |b: int| fij(a, b));
        }
        lemma_fsum_ext(n, rowk, rowa);
        let cellb = |b: int| cell(i, b);
        let colb = |b: int| fsum(n, |a: int| fij(a, b));
        assert forall|b: int| 0 <= b < n implies #[trigger] cellb(b) == colb(b) by {
            lemma_fsum_ext(n, |k: int| ff(k, i, b), |a: int| fij(a, b));
        }
        lemma_fsum_ext(n, cellb, colb);
        lemma_fsum_ext(n, |k: int| g3(k, i), rowk);
        assert(col(i) == fsum(n, rowk));
        assert(col2(i) == fsum(n, cellb));
    }
    lemma_fsum_ext(n, col, col2);
    // C/D: each row collapses to n * x[i] * y[t - i]
    let target = |i: int| (n as int) * (x[i] * crate::poly::coef(y, t - i));
    assert forall|i: int| 0 <= i < n implies #[trigger] col2(i) % p() == target(i) % p() by {
        let rowf = |j: int| cell(i, j);
        assert forall|j: int| 0 <= j < n implies #[trigger] rowf(j) % p() == (if i + j == t {
            (n as int) * (x[i] * y[j])
        } else {
            0
        }) % p() by {
            let d = (i + j + e) as nat;
            let u = pow(w, d);
            lemma_geom_as_fsum(u, n);
            assert forall|k: int| 0 <= k < n implies #[trigger] ff(k, i, j) == pow(u, k as nat) * (
            x[i] * y[j]) by {
                lemma_pow_multiplies(w, d, k as nat);
                assert(d * (k as nat) == k * (i + j + e)) by (nonlinear_arith)
                    requires
                        d == i + j + e,
                        k >= 0,
                ;
                assert(x[i] * y[j] * pow(u, k as nat) == pow(u, k as nat) * (x[i] * y[j])) by (
                nonlinear_arith);
            }
            lemma_fsum_scale(n, |k: int| pow(u, k as nat), |k: int| ff(k, i, j), x[i] * y[j]);
            // d == (i + j - t) + n * t
            assert(d == (i + j - t) + n * t) by (nonlinear_arith)
                requires
                    d == i + j + e,
                    e == (n - 1) * t,
            ;
            lemma_mod_multiples_vanish(t as int, i + j - t, n as int);
            lemma_mul_is_commutative(n as int, t as int);
            if i + j == t {
                lemma_small_mod(0, n);
                lemma_fundamental_div_mod(d as int, n as int);
                let q = (d / n) as nat;
                lemma_root_of_unity_order(lg);
                lemma_pow_multiplies(w, n, q);
                lemma_pow_mod_noop(pow(w, n), q, p());
                lemma1_pow(q);
                lemma_small_mod(1, p() as nat);
                assert(n * q == d);
                lemma_geom_one(u, n);
                lemma_mul_mod_noop_left(geom(u, n), x[i] * y[j], p());
                lemma_mul_mod_noop_left(n as int, x[i] * y[j], p());
            } else if i + j == t + n {
                // beyond the supports: one of the two factors is zero
                if i < la && j < lb {
                    assert(false);
                }
                assert(x[i] * y[j] == 0) by (nonlinear_arith)
                    requires
                        x[i] == 0 || y[j] == 0,
                ;
                assert(geom(u, n) * (x[i] * y[j]) == 0) by (nonlinear_arith)
                    requires
                        x[i] * y[j] == 0,
                ;
                lemma_small_mod(0, p() as nat);
            } else {
                let r = i + j - t;
                assert(r % (n as int) != 0) by {
                    if 0 <= r < n {
                        lemma_small_mod(r as nat, n);
                    } else if r >= n {
                        lemma_mod_sub_multiples_vanish(r, n as int);
                        lemma_small_mod((r - n) as nat, n);
                    } else {
                        lemma_mod_multiples_vanish(1, r, n as int);
                        lemma_small_mod((n + r) as nat, n);
                    }
                }
                lemma_orthogonality(lg, d);
                lemma_mul_mod_noop_left(geom(u, n), x[i] * y[j], p());
                lemma_small_mod(0, p() as nat);
            }
        }
        let jstar = t - i;
        assert forall|j: int| 0 <= j < n && j != jstar implies #[trigger] rowf(j) % p() == 0 by {
            lemma_small_mod(0, p() as nat);
        }
        if 0 <= jstar < n {
            assert(rowf(jstar) % p() == ((n as int) * (x[i] * y[jstar])) % p());
            assert(crate::poly::coef(y, jstar) == y[jstar]);
        } else {
            assert(crate::poly::coef(y, jstar) == 0);
            assert((n as int) * (x[i] * 0) == 0) by (nonlinear_arith);
            assert(target(i) == 0);
            lemma_small_mod(0, p() as nat);
        }
        lemma_fsum_at_most_one(n, rowf, jstar, target(i));
    }
    lemma_fsum_congr(n, col2, target);
    // E: the row sums form n times the product coefficient
    let cf = |i: int| crate::poly::coef(x, i) * crate::poly::coef(y, t - i);
    let cx = |i: int| x[i] * crate::poly::coef(y, t - i);
    lemma_fsum_scale(n, cx, |i: int| cx(i) * (n as int), n as int);
    assert forall|i: int| 0 <= i < n implies #[trigger] cx(i) * (n as int) == target(i) by {
        lemma_mul_is_commutative(cx(i), n as int);
    }
    lemma_fsum_ext(n, |i: int| cx(i) * (n as int), target);
    lemma_fsum_ext(n, cx, cf);
    lemma_fsum_prefix(n, t + 1, cf);
    assert(fsum(n, target) == fsum((t + 1) as nat, cf) * (n as int));
    lemma_mul_is_commutative(fsum((t + 1) as nat, cf), n as int);
    assert(crate::poly::conv(x, y, t as int) == fsum((t + 1) as nat, cf));
    assert(fsum(n, lhs_terms) % p() == fsum(n, inner) % p());
    assert(fsum(n, inner) == fsum(n, col));
    assert(fsum(n, col) == fsum(n, col2));
    assert(fsum(n, col2) % p() == fsum(n, target) % p());
}

/// The forward transform evaluates: entry k of the transform of the coefficients `c`
/// (of length 2^lg) is the polynomial's value at the k-th power of the root of unity of
/// order 2^lg.
pub proof fn lemma_ntt_evaluates(c: Seq<int>, lg: nat, k: nat)
    requires
        lg <= 27,
        c.len() == pow2(lg),
    ensures
        ntt_result(c, false, k) == crate::poly::poly_value(c, pow(root_of_unity_spec(lg), k)) % p(),
{
    lemma_pow2_injective(log2_spec(c.len() as int), lg);
    let w = root_of_unity_spec(lg);
    lemma_dft_sum_as_fsum(c, c.len(), w, k);
    let f = |m: int| c[m] * pow(w, (m * k) as nat);
    let g = |m: int| c[m] * pow(pow(w, k), m as nat);
    assert forall|m: int| 0 <= m < c.len() implies #[trigger] f(m) == g(m) by {
        lemma_pow_multiplies(w, k, m as nat);
        lemma_mul_is_commutative(m, k as int);
    }
    lemma_fsum_ext(c.len(), f, g);
}

/// The inverse transform interpolates: the coefficients that it gives for the values
/// `x` (of length 2^lg, reduced) take the value `x[k]` at the k-th power of the root of
/// unity of order 2^lg.
pub proof fn lemma_intt_interpolates(x: Seq<int>, lg: nat, k: nat)
    requires
        lg <= 27,
        x.len() == pow2(lg),
        forall|i: int| 0 <= i < x.len() ==> 0 <= #[trigger] x[i] < p(),
        k < x.len(),
    ensures
        crate::poly::poly_value(ntt_of(x, true), pow(root_of_unity_spec(lg), k)) % p() == x[k as int],
{
    lemma_ntt_inverts_intt(x);
    lemma_ntt_evaluates(ntt_of(x, true), lg, k);
    assert(ntt_of(ntt_of(x, true), false)[k as int] == x[k as int]);
}

} // verus!
