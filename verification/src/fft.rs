//! Number-theoretic transform over the BabyBear field (iterative radix-2,
//! bit-reversed input order).
use crate::error::StarkError;
use crate::field_babybear::{
    is_invertible, lemma_root_of_unity, lemma_root_of_unity_zero, p, root_of_unity_spec, vals,
    FpBabyBear,
};
use vstd::arithmetic::div_mod::*;
use vstd::arithmetic::mul::*;
use vstd::arithmetic::power::*;
use vstd::arithmetic::power2::*;
use vstd::prelude::*;

verus! {

broadcast use FpBabyBear::lemma_val_range;

/// `sum_{m < len} x[base + m * stride] * w^(m * k)`, over the integers.
pub open spec fn dft_sum(x: Seq<int>, base: int, stride: int, len: nat, w: int, k: nat) -> int
    decreases len,
{
    if len == 0 {
        0
    } else {
        dft_sum(x, base, stride, (len - 1) as nat, w, k) + x[base + (len - 1) * stride] * pow(
            w,
            ((len - 1) * k) as nat,
        )
    }
}

/// The `k`-th coefficient of the discrete Fourier transform of `x` at `w`:
/// `sum_{m < |x|} x[m] * w^(m * k)`.
pub open spec fn dft(x: Seq<int>, w: int, k: nat) -> int {
    dft_sum(x, 0, 1, x.len(), w, k)
}

/// The low `k` bits of `x`, in reverse order.
pub open spec fn bit_reverse(x: int, k: nat) -> int
    decreases k,
{
    if k == 0 {
        0
    } else {
        (x % 2) * pow2((k - 1) as nat) + bit_reverse(x / 2, (k - 1) as nat)
    }
}

/// `n` is 2^k for some k no larger than 27 (the field's two-adicity).
pub open spec fn is_small_pow2(n: int) -> bool {
    exists|k: nat| k <= 27 && pow2(k) == n
}

/// The exponent `k` with 2^k == n.
pub open spec fn log2_spec(n: int) -> nat {
    choose|k: nat| pow2(k) == n
}

/// The inverse of 2 modulo p.
pub open spec fn half() -> int {
    (p() + 1) / 2
}

/// The inverse of 2^k modulo p.
pub open spec fn inv_pow2(k: nat) -> int {
    pow(half(), k) % p()
}

/// The inverse of the root of unity of order 2^k.
pub open spec fn inv_root_of_unity(k: nat) -> int {
    pow(root_of_unity_spec(k), (pow2(k) - 1) as nat) % p()
}

/// The root used by the transform at the stage that builds blocks of size 2^l.
pub open spec fn stage_root(l: nat, inverse: bool) -> int {
    if inverse {
        inv_root_of_unity(l)
    } else {
        root_of_unity_spec(l)
    }
}

pub proof fn lemma_pow2_injective(a: nat, b: nat)
    requires
        pow2(a) == pow2(b),
    ensures
        a == b,
{
    if a < b {
        lemma_pow2_strictly_increases(a, b);
    } else if b < a {
        lemma_pow2_strictly_increases(b, a);
    }
}

/// Congruence of `a + b * c` and `a - b * c` under congruent parts.
proof fn lemma_mod_lin(a1: int, a2: int, b1: int, b2: int, c1: int, c2: int)
    requires
        a1 % p() == a2 % p(),
        b1 % p() == b2 % p(),
        c1 % p() == c2 % p(),
    ensures
        (a1 + b1 * c1) % p() == (a2 + b2 * c2) % p(),
        (a1 - b1 * c1) % p() == (a2 - b2 * c2) % p(),
{
    lemma_mul_mod_noop(b1, c1, p());
    lemma_mul_mod_noop(b2, c2, p());
    lemma_add_mod_noop(a1, b1 * c1, p());
    lemma_add_mod_noop(a2, b2 * c2, p());
    lemma_sub_mod_noop(a1, b1 * c1, p());
    lemma_sub_mod_noop(a2, b2 * c2, p());
}

/// Splitting a transform of even length into its even- and odd-indexed halves.
proof fn lemma_dft_split(x: Seq<int>, r: int, st: int, h: nat, w: int, k: nat)
    ensures
        dft_sum(x, r, st, 2 * h, w, k) == dft_sum(x, r, 2 * st, h, w * w, k) + pow(w, k) * dft_sum(
            x,
            r + st,
            2 * st,
            h,
            w * w,
            k,
        ),
    decreases h,
{
    if h > 0 {
        let m = (h - 1) as nat;
        lemma_dft_split(x, r, st, m, w, k);
        let ww = w * w;
        let e = dft_sum(x, r, 2 * st, m, ww, k);
        let o = dft_sum(x, r + st, 2 * st, m, ww, k);
        let pk = pow(w, k);
        let mk = (m * k) as nat;
        // the two new terms of the long sum
        assert(((2 * h - 1) as nat - 1) as nat == 2 * m);
        assert(r + (2 * m) * st == r + m * (2 * st)) by (nonlinear_arith);
        assert(r + (2 * m + 1) * st == (r + st) + m * (2 * st)) by (nonlinear_arith);
        assert((2 * m) * k == 2 * (m * k)) by (nonlinear_arith);
        assert((2 * m + 1) * k == k + 2 * (m * k)) by (nonlinear_arith);
        lemma_mul_nonnegative(m as int, k as int);
        lemma_pow_multiplies(w, 2, mk);
        lemma_square_is_pow2(w);
        lemma_pow_adds(w, k, (2 * mk) as nat);
        let pe = pow(ww, mk);
        assert(pow(w, ((2 * m) * k) as nat) == pe);
        assert(pow(w, ((2 * m + 1) * k) as nat) == pk * pe);
        let xe = x[r + m * (2 * st)];
        let xo = x[(r + st) + m * (2 * st)];
        assert(dft_sum(x, r, st, (2 * m + 1) as nat, w, k) == dft_sum(x, r, st, 2 * m, w, k) + xe
            * pe);
        assert(dft_sum(x, r, st, 2 * h, w, k) == dft_sum(x, r, st, (2 * m + 1) as nat, w, k) + xo
            * (pk * pe));
        assert(dft_sum(x, r, 2 * st, h, ww, k) == e + xe * pe);
        assert(dft_sum(x, r + st, 2 * st, h, ww, k) == o + xo * pe);
        assert(xo * (pk * pe) == pk * (xo * pe)) by (nonlinear_arith);
        assert(pk * (o + xo * pe) == pk * o + pk * (xo * pe)) by (nonlinear_arith);
    }
}

/// A transform sum only depends on the root modulo p.
proof fn lemma_dft_root_mod(x: Seq<int>, b: int, s: int, len: nat, w: int, k: nat)
    ensures
        dft_sum(x, b, s, len, w, k) % p() == dft_sum(x, b, s, len, w % p(), k) % p(),
    decreases len,
{
    if len > 0 {
        let m = (len - 1) as nat;
        lemma_dft_root_mod(x, b, s, m, w, k);
        let e = (m * k) as nat;
        lemma_pow_mod_noop(w, e, p());
        let xv = x[b + m * s];
        lemma_mod_lin(
            dft_sum(x, b, s, m, w, k),
            dft_sum(x, b, s, m, w % p(), k),
            xv,
            xv,
            pow(w, e),
            pow(w % p(), e),
        );
    }
}

/// Shifting the frequency by the order of the root leaves the sum unchanged modulo p.
proof fn lemma_dft_periodic(x: Seq<int>, b: int, s: int, len: nat, v: int, k: nat, h: nat)
    requires
        pow(v, h) % p() == 1,
    ensures
        dft_sum(x, b, s, len, v, k + h) % p() == dft_sum(x, b, s, len, v, k) % p(),
    decreases len,
{
    if len > 0 {
        let m = (len - 1) as nat;
        lemma_dft_periodic(x, b, s, m, v, k, h);
        assert(m * (k + h) == m * k + m * h) by (nonlinear_arith);
        lemma_mul_nonnegative(m as int, k as int);
        lemma_mul_nonnegative(m as int, h as int);
        let e1 = (m * k) as nat;
        let e2 = (m * h) as nat;
        lemma_pow_adds(v, e1, e2);
        lemma_pow_multiplies(v, h, m);
        assert(h * m == m * h) by (nonlinear_arith);
        lemma_pow_mod_noop(pow(v, h), m, p());
        lemma1_pow(m);
        lemma_small_mod(1, p() as nat);
        // v^(m h) == 1 (mod p)
        assert(pow(v, e2) % p() == 1);
        lemma_mul_mod_noop(pow(v, e1), pow(v, e2), p());
        lemma_mul_mod_noop(pow(v, e1), 1, p());
        assert(pow(v, e1) * pow(v, e2) % p() == pow(v, e1) % p());
        let xv = x[b + m * s];
        lemma_mod_lin(
            dft_sum(x, b, s, m, v, k + h),
            dft_sum(x, b, s, m, v, k),
            xv,
            xv,
            pow(v, (m * (k + h)) as nat),
            pow(v, e1),
        );
    }
}

/// One butterfly: the two halves of a block, each transformed at the squared root,
/// combine into the transform of the whole block at `w`.
proof fn lemma_butterfly(
    x: Seq<int>,
    r: int,
    st: int,
    h: nat,
    w: int,
    w2: int,
    k: nat,
    e: int,
    o: int,
    c: int,
)
    requires
        h >= 1,
        k < h,
        (w * w) % p() == w2,
        pow(w, h) % p() == p() - 1,
        e % p() == dft_sum(x, r, 2 * st, h, w2, k) % p(),
        o % p() == dft_sum(x, r + st, 2 * st, h, w2, k) % p(),
        c % p() == pow(w, k) % p(),
    ensures
        (e + c * o) % p() == dft_sum(x, r, st, 2 * h, w, k) % p(),
        (e - c * o) % p() == dft_sum(x, r, st, 2 * h, w, k + h) % p(),
{
    let ww = w * w;
    lemma_dft_split(x, r, st, h, w, k);
    lemma_dft_split(x, r, st, h, w, k + h);
    lemma_dft_root_mod(x, r, 2 * st, h, ww, k);
    lemma_dft_root_mod(x, r + st, 2 * st, h, ww, k);
    lemma_dft_root_mod(x, r, 2 * st, h, ww, k + h);
    lemma_dft_root_mod(x, r + st, 2 * st, h, ww, k + h);
    // (w*w)^h == 1 (mod p)
    lemma_pow_multiplies(w, h, 2);
    lemma_pow_multiplies(w, 2, h);
    lemma_square_is_pow2(w);
    lemma_square_is_pow2(pow(w, h));
    lemma_mul_mod_noop(pow(w, h), pow(w, h), p());
    assert(((p() - 1) * (p() - 1)) % p() == 1) by (nonlinear_arith);
    assert(2 * h == h * 2) by (nonlinear_arith);
    assert(pow(ww, h) % p() == 1);
    lemma_pow_mod_noop(ww, h, p());
    assert(pow(w2, h) % p() == 1);
    lemma_dft_periodic(x, r, 2 * st, h, w2, k, h);
    lemma_dft_periodic(x, r + st, 2 * st, h, w2, k, h);
    let ev = dft_sum(x, r, 2 * st, h, ww, k);
    let ov = dft_sum(x, r + st, 2 * st, h, ww, k);
    let ev2 = dft_sum(x, r, 2 * st, h, ww, k + h);
    let ov2 = dft_sum(x, r + st, 2 * st, h, ww, k + h);
    assert(ev % p() == e % p());
    assert(ov % p() == o % p());
    assert(ev2 % p() == e % p());
    assert(ov2 % p() == o % p());
    lemma_mod_lin(e, ev, c, pow(w, k), o, ov);
    assert(c * o == c * o);
    // the second half: w^(k+h) == -w^k (mod p)
    lemma_pow_adds(w, k, h);
    lemma_mul_mod_noop(pow(w, k), pow(w, h), p());
    lemma_mul_mod_noop(pow(w, k), p() - 1, p());
    assert(pow(w, k) * (p() - 1) == pow(w, k) * p() - pow(w, k)) by (nonlinear_arith);
    lemma_mod_multiples_vanish(pow(w, k), -pow(w, k), p());
    assert((pow(w, k) * p() - pow(w, k)) % p() == (-pow(w, k)) % p());
    assert(pow(w, k + h) % p() == (-pow(w, k)) % p());
    assert(c % p() == (-pow(w, k + h)) % p()) by {
        lemma_sub_mod_noop(0, pow(w, k + h), p());
        lemma_sub_mod_noop(0, -pow(w, k), p());
    }
    lemma_mod_lin(e, ev2, c, -pow(w, k + h), o, ov2);
    lemma_mul_unary_negation(pow(w, k + h), ov2);
}

pub proof fn lemma_bit_reverse_bound(x: int, k: nat)
    requires
        x >= 0,
    ensures
        0 <= bit_reverse(x, k) < pow2(k),
    decreases k,
{
    if k > 0 {
        lemma_bit_reverse_bound(x / 2, (k - 1) as nat);
        lemma_pow2_unfold(k);
        lemma_pow2_pos((k - 1) as nat);
        assert((x % 2) * pow2((k - 1) as nat) <= pow2((k - 1) as nat)) by (nonlinear_arith)
            requires
                0 <= x % 2 <= 1,
                pow2((k - 1) as nat) > 0,
        ;
    } else {
        lemma2_to64();
    }
}

pub proof fn lemma_bit_reverse_zero(k: nat)
    ensures
        bit_reverse(0, k) == 0,
    decreases k,
{
    if k > 0 {
        lemma_bit_reverse_zero((k - 1) as nat);
        assert(0int % 2 == 0);
        assert(0int / 2 == 0);
        assert(0 * pow2((k - 1) as nat) == 0);
    }
}

/// For a block start `x` (a multiple of 2^l), the start of its second half
/// reverses to `rev(x) + 2^(k - l)`.
#[verifier::spinoff_prover]
pub proof fn lemma_bit_reverse_half(x: int, k: nat, l: nat)
    requires
        1 <= l <= k,
        x >= 0,
        x % (pow2(l) as int) == 0,
    ensures
        bit_reverse(x + pow2((l - 1) as nat), k) == bit_reverse(x, k) + pow2((k - l) as nat),
    decreases l,
{
    lemma_pow2_unfold(l);
    let q = x / (pow2(l) as int);
    lemma_pow2_pos(l);
    lemma_fundamental_div_mod(x, pow2(l) as int);
    assert(x == pow2(l) * q);
    let hl = pow2((l - 1) as nat) as int;
    assert(x == 2 * (hl * q)) by (nonlinear_arith)
        requires
            x == pow2(l) * q,
            pow2(l) == 2 * hl,
    ;
    lemma_mod_multiples_basic(hl * q, 2);
    assert(x % 2 == 0) by {
        lemma_mul_is_commutative(2, hl * q);
    }
    assert(x / 2 == hl * q) by {
        lemma_div_multiples_vanish(hl * q, 2);
    }
    if l == 1 {
        lemma2_to64();
        assert((x + 1) % 2 == 1) by {
            lemma_mod_add_multiples_vanish(1, 2);
            lemma_mul_is_commutative(2, hl * q);
        }
        assert((x + 1) / 2 == x / 2) by {
            lemma_fundamental_div_mod(x + 1, 2);
        }
        let km = (k - 1) as nat;
        assert(bit_reverse(x + 1, k) == ((x + 1) % 2) * pow2(km) + bit_reverse((x + 1) / 2, km));
        assert(bit_reverse(x, k) == (x % 2) * pow2(km) + bit_reverse(x / 2, km));
        assert(1 * pow2(km) == pow2(km));
        assert(0 * pow2(km) == 0);
        assert(bit_reverse(x + 1, k) == pow2(km) + bit_reverse(x / 2, km));
        assert(bit_reverse(x, k) == bit_reverse(x / 2, km));
        assert((k - l) as nat == km);
    } else {
        lemma_pow2_unfold((l - 1) as nat);
        let hh = pow2((l - 2) as nat) as int;
        assert(x + hl == 2 * (hl * q + hh)) by (nonlinear_arith)
            requires
                x == 2 * (hl * q),
                hl == 2 * hh,
        ;
        assert((x + hl) % 2 == 0 && (x + hl) / 2 == hl * q + hh) by {
            lemma_mod_multiples_basic(hl * q + hh, 2);
            lemma_div_multiples_vanish(hl * q + hh, 2);
            lemma_mul_is_commutative(2, hl * q + hh);
        }
        assert((hl * q) % hl == 0) by {
            lemma_mod_multiples_basic(q, hl);
            lemma_mul_is_commutative(hl, q);
        }
        lemma_bit_reverse_half(hl * q, (k - 1) as nat, (l - 1) as nat);
        assert(((k - 1) as nat - (l - 1) as nat) as nat == (k - l) as nat);
        assert((((l - 1) as nat) - 1) as nat == (l - 2) as nat);
        let km = (k - 1) as nat;
        assert(bit_reverse(x + hl, k) == ((x + hl) % 2) * pow2(km) + bit_reverse((x + hl) / 2, km));
        assert(bit_reverse(x, k) == (x % 2) * pow2(km) + bit_reverse(x / 2, km));
        assert(0 * pow2(km) == 0);
        assert(bit_reverse(x + hl, k) == bit_reverse(hl * q + hh, km));
        assert(bit_reverse(x, k) == bit_reverse(hl * q, km));
    }
}

/// The bit reversal of `i` over `k` bits.
fn bit_reverse_exec(i: usize, k: u32) -> (r: usize)
    requires
        pow2(k as nat) <= usize::MAX,
        i < pow2(k as nat),
    ensures
        r == bit_reverse(i as int, k as nat),
{
    let mut r: usize = 0;
    let mut y: usize = i;
    let mut t: u32 = 0;
    proof {
        lemma_pow2_pos(k as nat);
        lemma2_to64();
    }
    while t < k
        invariant
            t <= k,
            y >= 0,
            r < pow2(t as nat),
            pow2(t as nat) <= pow2(k as nat),
            pow2(k as nat) <= usize::MAX,
            bit_reverse(i as int, k as nat) == r * pow2((k - t) as nat) + bit_reverse(
                y as int,
                (k - t) as nat,
            ),
        decreases k - t,
    {
        let ghost m = (k - t) as nat;
        proof {
            lemma_pow2_unfold(m);
            lemma_pow2_unfold((t + 1) as nat);
            if t + 1 < k {
                lemma_pow2_strictly_increases((t + 1) as nat, k as nat);
            }
            assert(r * pow2(m) + (y as int % 2) * pow2((m - 1) as nat) == (2 * r + y as int % 2)
                * pow2((m - 1) as nat)) by (nonlinear_arith)
                requires
                    pow2(m) == 2 * pow2((m - 1) as nat),
            ;
        }
        r = 2 * r + y % 2;
        y = y / 2;
        t = t + 1;
    }
    proof {
        lemma2_to64();
        assert(t == k);
        assert(bit_reverse(y as int, 0) == 0);
        assert(r * pow2(0) == r);
    }
    r
}

/// `Some(k)` when `n == 2^k`, `None` when `n` is no power of two.
pub fn exact_log2(n: u64) -> (r: Option<u32>)
    ensures
        r matches Some(k) ==> pow2(k as nat) == n && k < 64,
        r is None ==> forall|k: nat| pow2(k) != n,
{
    let mut k: u32 = 0;
    let mut m: u64 = 1;
    proof {
        lemma2_to64();
    }
    while m < n && k < 63
        invariant
            k <= 63,
            m == pow2(k as nat),
            forall|j: nat| j < k ==> pow2(j) < n,
        decreases 63 - k,
    {
        proof {
            lemma2_to64();
            lemma_pow2_unfold((k + 1) as nat);
            lemma2_to64_rest();
            lemma_pow2_strictly_increases(k as nat, 63);
        }
        m = m * 2;
        k = k + 1;
    }
    if m == n {
        Some(k)
    } else {
        proof {
            assert forall|j: nat| pow2(j) != n by {
                if j > k {
                    lemma_pow2_strictly_increases(k as nat, j);
                    if k == 63 {
                        lemma2_to64();
                        lemma2_to64_rest();
                        if j > 64 {
                            lemma_pow2_strictly_increases(64, j);
                        }
                    }
                }
            }
        }
        None
    }
}

/// The inverse root is the inverse of the root.
proof fn lemma_root_inverse(l: nat)
    requires
        l <= 27,
    ensures
        0 <= inv_root_of_unity(l) < p(),
        (root_of_unity_spec(l) * inv_root_of_unity(l)) % p() == 1,
        is_invertible(root_of_unity_spec(l)),
{
    let r = root_of_unity_spec(l);
    let big = pow2(l);
    lemma_pow2_pos(l);
    if l == 0 {
        lemma_root_of_unity_zero();
        lemma2_to64();
        lemma_pow0(r);
        lemma_small_mod(1, p() as nat);
        assert(inv_root_of_unity(0) == 1);
    } else {
        lemma_root_of_unity(l);
    }
    let y = inv_root_of_unity(l);
    lemma_mul_mod_noop_right(r, pow(r, (big - 1) as nat), p());
    lemma_pow_adds(r, 1, (big - 1) as nat);
    lemma_pow1(r);
    assert(1 + (big - 1) as nat == big);
    assert((r * y) % p() == 1);
}

/// 2^k is invertible, with inverse half^k.
pub proof fn lemma_pow2_inverse(k: nat)
    ensures
        0 <= inv_pow2(k) < p(),
        (pow2(k) * inv_pow2(k)) % p() == 1,
        is_invertible(pow2(k) as int),
{
    let hv = half();
    assert(2 * hv == p() + 1);
    lemma_pow2(k);
    lemma_mul_mod_noop_right(pow2(k) as int, pow(hv, k), p());
    lemma_pow_distributes(2, hv, k);
    lemma_pow_mod_noop(2 * hv, k, p());
    lemma_mod_add_multiples_vanish(1, p());
    lemma_small_mod(1, p() as nat);
    lemma1_pow(k);
    assert((pow2(k) * inv_pow2(k)) % p() == 1);
}

/// The roots used by the forward and the inverse transform both square into the
/// root of the next smaller stage and have the exact stage order.
proof fn lemma_stage_root(l: nat, inverse: bool)
    requires
        1 <= l <= 27,
    ensures
        0 <= stage_root(l, inverse) < p(),
        (stage_root(l, inverse) * stage_root(l, inverse)) % p() == stage_root((l - 1) as nat, inverse),
        pow(stage_root(l, inverse), pow2((l - 1) as nat)) % p() == p() - 1,
{
    lemma_root_of_unity(l);
    if inverse {
        let r = root_of_unity_spec(l);
        let big = pow2(l);
        let h = pow2((l - 1) as nat);
        lemma_pow2_unfold(l);
        lemma_pow2_pos((l - 1) as nat);
        let w = pow(r, (big - 1) as nat);
        // w^2 == r^(big - 2) (mod p)
        lemma_mul_mod_noop(w, w, p());
        lemma_pow_adds(r, (big - 1) as nat, (big - 1) as nat);
        lemma_pow_adds(r, big, (big - 2) as nat);
        lemma_mul_mod_noop(pow(r, big), pow(r, (big - 2) as nat), p());
        lemma_mod_twice(pow(r, (big - 2) as nat), p());
        lemma_mul_mod_noop_right(1, pow(r, (big - 2) as nat), p());
        assert((big - 1) as nat + (big - 1) as nat == big + (big - 2) as nat);
        assert((w * w) % p() == pow(r, (big - 2) as nat) % p());
        // the previous inverse root is (r*r)^(h - 1) == r^(big - 2)
        if l == 1 {
            lemma_root_of_unity_zero();
            lemma2_to64();
            lemma_pow0(r);
            lemma_pow0(1);
            lemma_small_mod(1, p() as nat);
            assert(stage_root(0, true) == 1);
        } else {
            lemma_root_of_unity((l - 1) as nat);
            lemma_pow2_pos((l - 2) as nat);
            lemma_pow2_unfold((l - 1) as nat);
        }
        lemma_pow_mod_noop(r * r, (h - 1) as nat, p());
        lemma_square_is_pow2(r);
        lemma_pow_multiplies(r, 2, (h - 1) as nat);
        assert(2 * (h - 1) == big - 2);
        assert(stage_root((l - 1) as nat, true) == pow(r, (big - 2) as nat) % p());
        // w^h == r^((h-1) big + h) == -1
        lemma_pow_mod_noop(w, h, p());
        lemma_pow_multiplies(r, (big - 1) as nat, h);
        assert((big - 1) * h == (h - 1) * big + h) by (nonlinear_arith)
            requires
                big == 2 * h,
        ;
        lemma_mul_nonnegative((h - 1) as int, big as int);
        lemma_pow_adds(r, ((h - 1) * big) as nat, h);
        lemma_pow_multiplies(r, big, (h - 1) as nat);
        assert(big * (h - 1) == (h - 1) * big) by (nonlinear_arith);
        lemma_pow_mod_noop(pow(r, big), (h - 1) as nat, p());
        lemma1_pow((h - 1) as nat);
        lemma_small_mod(1, p() as nat);
        lemma_mul_mod_noop(pow(pow(r, big), (h - 1) as nat), pow(r, h), p());
        lemma_mod_twice(pow(r, h), p());
        assert(pow(stage_root(l, true), h) % p() == p() - 1);
    }
}

/// What the transform computes at position `pos` once blocks of size 2^l are done.
pub open spec fn stage_value(x: Seq<int>, logn: nat, l: nat, inverse: bool, pos: int) -> int {
    let big = pow2(l) as int;
    dft_sum(
        x,
        bit_reverse(pos - pos % big, logn),
        pow2((logn - l) as nat) as int,
        pow2(l),
        stage_root(l, inverse),
        (pos % big) as nat,
    ) % p()
}

proof fn lemma_block_pos(i: int, big: int, t: int)
    requires
        i >= 0,
        big > 0,
        i % big == 0,
        0 <= t < big,
    ensures
        (i + t) % big == t,
        (i + t) - (i + t) % big == i,
{
    lemma_fundamental_div_mod(i, big);
    lemma_mod_multiples_vanish(i / big, t, big);
    lemma_small_mod(t as nat, big as nat);
    lemma_mul_is_commutative(big, i / big);
}

/// What `ntt_in_place` leaves at position `k` of a power-of-two input `x`.
pub open spec fn ntt_result(x: Seq<int>, inverse: bool, k: nat) -> int {
    let lg = log2_spec(x.len() as int);
    if inverse {
        (inv_pow2(lg) * dft(x, inv_root_of_unity(lg), k)) % p()
    } else {
        dft(x, root_of_unity_spec(lg), k) % p()
    }
}

/// The whole transform of `x` (inverse or forward) as a sequence of values.
pub open spec fn ntt_of(x: Seq<int>, inverse: bool) -> Seq<int> {
    Seq::new(x.len(), |k: int| ntt_result(x, inverse, k as nat))
}

/// The transform in place: the bit-reversal permutation, then one butterfly stage per
/// doubling of the block size. A power-of-two length beyond 2^27 has no root of unity
/// for its larger stages: the first 27 stages are done and left in place, and the
/// transform fails.
fn ntt_in_place(a: &mut [FpBabyBear], inverse: bool) -> (r: Result<(), StarkError>)
    ensures
        old(a)@.len() <= 1 ==> r is Ok,
        old(a)@.len() > 1 ==> (r is Ok <==> is_small_pow2(old(a)@.len() as int)),
        old(a)@.len() > 1 && !(exists|k: nat| pow2(k) == old(a)@.len()) ==> r == Err::<
            (),
            StarkError,
        >(StarkError::NttSizeNotPowerOfTwo),
        old(a)@.len() > 1 && (exists|k: nat| pow2(k) == old(a)@.len()) && !is_small_pow2(
            old(a)@.len() as int,
        ) ==> r == Err::<(), StarkError>(StarkError::NoRootOfUnity),
        old(a)@.len() > 1 && !(exists|k: nat| pow2(k) == old(a)@.len()) ==> final(a)@ == old(a)@,
        old(a)@.len() > 1 && (exists|k: nat| pow2(k) == old(a)@.len()) && !is_small_pow2(
            old(a)@.len() as int,
        ) ==> final(a)@.len() == old(a)@.len() && forall|k: int|
            0 <= k < old(a)@.len() ==> #[trigger] final(a)@[k].val() == stage_value(
                vals(old(a)@),
                log2_spec(old(a)@.len() as int),
                27,
                inverse,
                k,
            ),
        old(a)@.len() <= 1 ==> final(a)@ == old(a)@,
        r is Ok && old(a)@.len() > 1 ==> final(a)@.len() == old(a)@.len() && forall|k: int|
            0 <= k < old(a)@.len() ==> #[trigger] final(a)@[k].val() == ntt_result(
                vals(old(a)@),
                inverse,
                k as nat,
            ),
{
    let n: usize = a.len();
    if n <= 1 {
        return Ok(());
    }
    let n_log: u32 = match exact_log2(n as u64) {
        Some(k) => k,
        None => {
            return Err(StarkError::NttSizeNotPowerOfTwo);
        },
    };
    let ghost x = vals(a@);
    let ghost lg = n_log as nat;
    proof {
        assert(pow2(lg) == n);
        lemma_pow2_injective(log2_spec(n as int), lg);
        lemma2_to64();
    }
    // bit-reversal permutation
    let mut b: Vec<FpBabyBear> = Vec::new();
    let mut i: usize = 0;
    while i < n
        invariant
            n == a@.len(),
            x == vals(a@),
            n == pow2(lg),
            lg == n_log,
            i <= n,
            b@.len() == i,
            forall|pos: int|
                0 <= pos < i ==> #[trigger] b@[pos].val() == stage_value(x, lg, 0, inverse, pos),
        decreases n - i,
    {
        let j: usize = bit_reverse_exec(i, n_log);
        proof {
            lemma_bit_reverse_bound(i as int, lg);
        }
        b.push(a[j]);
        proof {
            let pos = i as int;
            lemma2_to64();
            assert(pos % 1 == 0);
            assert(pos - pos % 1 == pos);
            assert(0 * (pow2(lg) as int) == 0);
            assert(((1 - 1) * 0) as nat == 0);
            assert(dft_sum(x, j as int, pow2(lg) as int, 0, stage_root(0, inverse), 0) == 0);
            assert(dft_sum(x, j as int, pow2(lg) as int, 1, stage_root(0, inverse), 0) == x[j as int]
                * pow(stage_root(0, inverse), 0));
            lemma_pow0(stage_root(0, inverse));
            lemma_small_mod(x[j as int] as nat, p() as nat);
            assert(b@[pos].val() == stage_value(x, lg, 0, inverse, pos));
        }
        i = i + 1;
    }
    // butterfly stages
    let mut len: usize = 2;
    let mut l: u32 = 1;
    while len <= n
        invariant
            n == a@.len(),
            n == b@.len(),
            n == pow2(lg),
            lg == n_log,
            n > 1,
            x == vals(old(a)@),
            a@ == old(a)@,
            log2_spec(n as int) == lg,
            1 <= l <= lg + 1,
            l <= 28,
            len == pow2(l as nat),
            len <= 2 * n,
            forall|pos: int|
                0 <= pos < n ==> #[trigger] b@[pos].val() == stage_value(
                    x,
                    lg,
                    (l - 1) as nat,
                    inverse,
                    pos,
                ),
        decreases lg + 1 - l,
    {
        let ghost ll = l as nat;
        proof {
            if ll > lg {
                lemma_pow2_strictly_increases(lg, ll);
            }
            assert(ll <= lg);
        }
        let root: FpBabyBear = match FpBabyBear::get_root_of_unity(len as u64) {
            Some(w) => w,
            None => {
                // past the field's two-adicity: the first 27 stages stay in place
                proof {
                    if ll <= 27 {
                        assert(pow2(ll) == len as u64);
                    }
                    assert(ll == 28);
                }
                let mut k: usize = 0;
                while k < n
                    invariant
                        n == a@.len(),
                        n == b@.len(),
                        n == old(a)@.len(),
                        x == vals(old(a)@),
                        log2_spec(n as int) == lg,
                        k <= n,
                        ll == 28,
                        forall|pos: int|
                            0 <= pos < n ==> #[trigger] b@[pos].val() == stage_value(
                                x,
                                lg,
                                27,
                                inverse,
                                pos,
                            ),
                        forall|pos: int| 0 <= pos < k ==> #[trigger] a@[pos] == b@[pos],
                    decreases n - k,
                {
                    a[k] = b[k];
                    k = k + 1;
                }
                proof {
                    assert forall|kk: nat| kk <= 27 implies pow2(kk) != n by {
                        if pow2(kk) == n {
                            lemma_pow2_injective(kk, lg);
                        }
                    }
                    assert(!is_small_pow2(n as int));
                    assert(pow2(lg) == n);
                }
                return Err(StarkError::NoRootOfUnity);
            },
        };
        proof {
            let kk = choose|kk: nat| kk <= 27 && pow2(kk) == len as u64;
            lemma_pow2_injective(kk, ll);
            assert(ll <= 27);
            lemma_stage_root(ll, inverse);
            lemma_pow2_unfold(ll);
            if ll < 27 {
                lemma_pow2_strictly_increases(ll, 27);
            }
            lemma2_to64();
            assert(len <= 0x800_0000);
        }
        proof {
            assert(pow2(ll) == len as u64);
            lemma_root_inverse(ll);
            assert(0 <= inv_root_of_unity(ll) < p() && (root_of_unity_spec(ll) * inv_root_of_unity(ll)) % p() == 1);
        }
        let omega: FpBabyBear = if inverse {
            match root.inverse() {
                Some(w) => w,
                None => {
                    return Err(StarkError::RootNotInvertible);
                },
            }
        } else {
            root
        };
        proof {
            if inverse {
                crate::field_babybear::lemma_inverse_unique(root_of_unity_spec(ll), omega.val(), inv_root_of_unity(ll));
            }
            assert(omega.val() == stage_root(ll, inverse));
            lemma_pow2_adds((lg - ll) as nat, ll);
            assert((lg - ll) as nat + ll == lg);
            lemma_pow2_pos(ll);
        }
        let half: usize = len / 2;
        let mut i: usize = 0;
        let ghost nblocks: int = pow2((lg - ll) as nat) as int;
        let ghost mut blk: int = 0;
        while i < n
            invariant
                n == a@.len(),
                n == b@.len(),
                n == pow2(lg),
                lg == n_log,
                1 <= ll <= lg,
                ll <= 27,
                ll == l,
                len == pow2(ll),
                len <= n,
                half * 2 == len,
                half == pow2((ll - 1) as nat),
                len > 0,
                omega.val() == stage_root(ll, inverse),
                n == nblocks * len,
                0 <= blk <= nblocks,
                i == blk * len,
                forall|pos: int|
                    0 <= pos < i ==> #[trigger] b@[pos].val() == stage_value(x, lg, ll, inverse, pos),
                forall|pos: int|
                    i <= pos < n ==> #[trigger] b@[pos].val() == stage_value(
                        x,
                        lg,
                        (ll - 1) as nat,
                        inverse,
                        pos,
                    ),
            decreases n - i,
        {
            proof {
                assert(blk < nblocks) by (nonlinear_arith)
                    requires
                        i == blk * len,
                        i < n,
                        n == nblocks * len,
                        len > 0,
                ;
                assert(i + len <= n) by (nonlinear_arith)
                    requires
                        i == blk * len,
                        blk + 1 <= nblocks,
                        n == nblocks * len,
                        len > 0,
                ;
            }
            let mut cur: FpBabyBear = FpBabyBear::one();
            let mut j: usize = 0;
            proof {
                lemma_pow0(stage_root(ll, inverse));
                lemma_small_mod(1, p() as nat);
            }
            while j < half
                invariant
                    n == a@.len(),
                    n == b@.len(),
                    n == pow2(lg),
                    lg == n_log,
                    1 <= ll <= lg,
                    ll <= 27,
                    len == pow2(ll),
                    half * 2 == len,
                    half == pow2((ll - 1) as nat),
                    omega.val() == stage_root(ll, inverse),
                    i == blk * len,
                    i + len <= n,
                    j <= half,
                    cur.val() == pow(stage_root(ll, inverse), j as nat) % p(),
                    forall|pos: int|
                        (0 <= pos < i + j || i + half <= pos < i + half + j) ==> #[trigger] b@[pos].val()
                            == stage_value(x, lg, ll, inverse, pos),
                    forall|pos: int|
                        (i + j <= pos < i + half || i + half + j <= pos < n) ==> #[trigger] b@[pos].val()
                            == stage_value(x, lg, (ll - 1) as nat, inverse, pos),
                decreases half - j,
            {
                let u: FpBabyBear = b[i + j];
                let vv: FpBabyBear = b[i + j + half];
                let v: FpBabyBear = vv.mul(cur);
                let ghost w = stage_root(ll, inverse);
                let ghost w2 = stage_root((ll - 1) as nat, inverse);
                let ghost st = pow2((lg - ll) as nat) as int;
                let ghost r0 = bit_reverse(i as int, lg);
                let ghost ii = i as int;
                let ghost hh = half as int;
                let ghost jj = j as int;
                proof {
                    lemma_stage_root(ll, inverse);
                    lemma_pow2_unfold((lg - ll + 1) as nat);
                    assert((lg - (ll - 1) as nat) as nat == (lg - ll + 1) as nat);
                    lemma_pow2_pos((ll - 1) as nat);
                    assert(ii == (2 * blk) * hh) by (nonlinear_arith)
                        requires
                            ii == blk * len,
                            len == 2 * hh,
                    ;
                    lemma_mod_multiples_basic(2 * blk, hh);
                    assert(ii + hh == (2 * blk + 1) * hh) by (nonlinear_arith)
                        requires
                            ii == (2 * blk) * hh,
                    ;
                    lemma_mod_multiples_basic(2 * blk + 1, hh);
                    lemma_mod_multiples_basic(blk, len as int);
                    lemma_block_pos(ii, hh, jj);
                    lemma_block_pos(ii + hh, hh, jj);
                    lemma_block_pos(ii, len as int, jj);
                    lemma_block_pos(ii, len as int, hh + jj);
                    lemma_bit_reverse_half(ii, lg, ll);
                    let e = u.val();
                    let o = vv.val();
                    let c = cur.val();
                    assert(e == stage_value(x, lg, (ll - 1) as nat, inverse, ii + jj));
                    assert(o == stage_value(x, lg, (ll - 1) as nat, inverse, ii + hh + jj));
                    let ev = dft_sum(x, r0, 2 * st, half as nat, w2, j as nat);
                    let ov = dft_sum(x, r0 + st, 2 * st, half as nat, w2, j as nat);
                    assert(e == ev % p());
                    assert(o == ov % p());
                    lemma_mod_twice(ev, p());
                    lemma_mod_twice(ov, p());
                    lemma_mod_twice(pow(w, j as nat), p());
                    lemma_butterfly(x, r0, st, half as nat, w, w2, j as nat, e, o, c);
                    lemma_add_mod_noop(e, o * c, p());
                    lemma_sub_mod_noop(e, o * c, p());
                    lemma_small_mod(e as nat, p() as nat);
                    lemma_mul_is_commutative(o, c);
                    assert((u.val() + v.val()) % p() == stage_value(x, lg, ll, inverse, ii + jj));
                    assert((u.val() - v.val()) % p() == stage_value(x, lg, ll, inverse, ii + hh + jj));
                }
                b.set(i + j, u.add(v));
                b.set(i + j + half, u.sub(v));
                let ghost cv = cur.val();
                cur = cur.mul(omega);
                proof {
                    lemma_mul_mod_noop_left(pow(stage_root(ll, inverse), j as nat), omega.val(), p());
                    lemma_pow_adds(stage_root(ll, inverse), j as nat, 1);
                    lemma_pow1(stage_root(ll, inverse));
                }
                j = j + 1;
            }
            i = i + len;
            proof {
                blk = blk + 1;
                assert(i == blk * len) by (nonlinear_arith)
                    requires
                        i == (blk - 1) * len + len,
                ;
            }
        }
        proof {
            lemma_pow2_unfold((ll + 1) as nat);
        }
        len = len * 2;
        l = l + 1;
    }
    proof {
        if l < lg {
            lemma_pow2_strictly_increases(l as nat, lg);
        }
        assert(l == lg + 1);
        assert(lg <= 27);
        assert(is_small_pow2(n as int));
        if lg < 27 {
            lemma_pow2_strictly_increases(lg, 27);
        }
    }
    let mut n_inv: FpBabyBear = FpBabyBear::one();
    if inverse {
        proof {
            lemma_pow2_inverse(lg);
            lemma_small_mod(n as nat, p() as nat);
        }
        n_inv = match FpBabyBear::from_u64(n as u64).inverse() {
            Some(y) => y,
            None => {
                return Err(StarkError::SizeNotInvertible);
            },
        };
        proof {
            crate::field_babybear::lemma_inverse_unique(n as int, n_inv.val(), inv_pow2(lg));
        }
    }
    let mut k: usize = 0;
    while k < n
        invariant
            n == a@.len(),
            n == b@.len(),
            n == pow2(lg),
            lg == n_log <= 27,
            x == vals(old(a)@),
            x.len() == n,
            log2_spec(n as int) == lg,
            inverse ==> n_inv.val() == inv_pow2(lg),
            k <= n,
            forall|pos: int|
                0 <= pos < n ==> #[trigger] b@[pos].val() == stage_value(x, lg, lg, inverse, pos),
            forall|pos: int|
                0 <= pos < k ==> #[trigger] a@[pos].val() == ntt_result(x, inverse, pos as nat),
        decreases n - k,
    {
        proof {
            let pos = k as int;
            lemma_small_mod(k as nat, n as nat);
            lemma_bit_reverse_zero(lg);
            lemma2_to64();
            assert((lg - lg) as nat == 0);
            assert(b@[pos].val() == dft(x, stage_root(lg, inverse), k as nat) % p());
        }
        if inverse {
            a[k] = b[k].mul(n_inv);
            proof {
                let d = dft(x, stage_root(lg, inverse), k as nat);
                lemma_mul_mod_noop_left(d, n_inv.val(), p());
                lemma_mul_is_commutative(d, n_inv.val());
            }
        } else {
            a[k] = b[k];
        }
        k = k + 1;
    }
    Ok(())
}

/// Evaluates the coefficients in place at the powers of the root of unity of order
/// `coeffs.len()`: position `k` receives `sum_m coeffs[m] * root^(m k)`.
pub fn ntt(coeffs: &mut [FpBabyBear]) -> (r: Result<(), StarkError>)
    ensures
        old(coeffs)@.len() <= 1 ==> r is Ok && final(coeffs)@ == old(coeffs)@,
        old(coeffs)@.len() > 1 ==> (r is Ok <==> is_small_pow2(old(coeffs)@.len() as int)),
        old(coeffs)@.len() > 1 && !(exists|k: nat| pow2(k) == old(coeffs)@.len()) ==> r == Err::<
            (),
            StarkError,
        >(StarkError::NttSizeNotPowerOfTwo),
        old(coeffs)@.len() > 1 && (exists|k: nat| pow2(k) == old(coeffs)@.len()) && !is_small_pow2(
            old(coeffs)@.len() as int,
        ) ==> r == Err::<(), StarkError>(StarkError::NoRootOfUnity),
        old(coeffs)@.len() > 1 && !(exists|k: nat| pow2(k) == old(coeffs)@.len()) ==> final(coeffs)@
            == old(coeffs)@,
        old(coeffs)@.len() > 1 && (exists|k: nat| pow2(k) == old(coeffs)@.len()) && !is_small_pow2(
            old(coeffs)@.len() as int,
        ) ==> final(coeffs)@.len() == old(coeffs)@.len() && forall|k: int|
            0 <= k < old(coeffs)@.len() ==> #[trigger] final(coeffs)@[k].val() == stage_value(
                vals(old(coeffs)@),
                log2_spec(old(coeffs)@.len() as int),
                27,
                false,
                k,
            ),
        r is Ok && old(coeffs)@.len() > 1 ==> final(coeffs)@.len() == old(coeffs)@.len() && forall|
            k: int,
        |
            0 <= k < old(coeffs)@.len() ==> #[trigger] final(coeffs)@[k].val() == ntt_result(
                vals(old(coeffs)@),
                false,
                k as nat,
            ),
{
    ntt_in_place(coeffs, false)
}

/// The inverse transform in place: position `k` receives
/// `n^-1 * sum_m evals[m] * root^(-m k)` for `n = evals.len()`.
pub fn intt(evals: &mut [FpBabyBear]) -> (r: Result<(), StarkError>)
    ensures
        old(evals)@.len() <= 1 ==> r is Ok && final(evals)@ == old(evals)@,
        old(evals)@.len() > 1 ==> (r is Ok <==> is_small_pow2(old(evals)@.len() as int)),
        old(evals)@.len() > 1 && !(exists|k: nat| pow2(k) == old(evals)@.len()) ==> r == Err::<
            (),
            StarkError,
        >(StarkError::NttSizeNotPowerOfTwo),
        old(evals)@.len() > 1 && (exists|k: nat| pow2(k) == old(evals)@.len()) && !is_small_pow2(
            old(evals)@.len() as int,
        ) ==> r == Err::<(), StarkError>(StarkError::NoRootOfUnity),
        old(evals)@.len() > 1 && !(exists|k: nat| pow2(k) == old(evals)@.len()) ==> final(evals)@
            == old(evals)@,
        old(evals)@.len() > 1 && (exists|k: nat| pow2(k) == old(evals)@.len()) && !is_small_pow2(
            old(evals)@.len() as int,
        ) ==> final(evals)@.len() == old(evals)@.len() && forall|k: int|
            0 <= k < old(evals)@.len() ==> #[trigger] final(evals)@[k].val() == stage_value(
                vals(old(evals)@),
                log2_spec(old(evals)@.len() as int),
                27,
                true,
                k,
            ),
        r is Ok && old(evals)@.len() > 1 ==> final(evals)@.len() == old(evals)@.len() && forall|
            k: int,
        |
            0 <= k < old(evals)@.len() ==> #[trigger] final(evals)@[k].val() == ntt_result(
                vals(old(evals)@),
                true,
                k as nat,
            ),
{
    ntt_in_place(evals, true)
}

} // verus!
