//! The multiplicative structure of the BabyBear field: 31 generates every nonzero
//! residue, so p is prime and every nonzero element has an inverse.
use crate::field_babybear::{
    is_invertible, lemma_invertible_mod, lemma_root_of_unity, lemma_two_adic_root_order, p,
    root_of_unity_spec, TWO_ADIC_ROOT_OF_UNITY,
};
use crate::poly_laws::lemma_cancel_invertible;
use vstd::arithmetic::div_mod::*;
use vstd::arithmetic::mul::*;
use vstd::arithmetic::power::*;
use vstd::arithmetic::power2::*;
use vstd::prelude::*;
use vstd::relations::injective_on;
use vstd::set_lib::*;

verus! {

/// One step of square-and-multiply: from `b^e` to `b^(2e + bit)`.
proof fn lemma_pow_step(b: int, e: nat, v: int, bit: nat, v2: int)
    requires
        pow(b, e) % p() == v,
        bit <= 1,
        v2 == (v * v * (if bit == 1 {
            b
        } else {
            1
        })) % p(),
    ensures
        pow(b, 2 * e + bit) % p() == v2,
{
    let c = if bit == 1 {
        b
    } else {
        1
    };
    let a = pow(b, e);
    lemma_pow_adds(b, e, e);
    lemma_pow_adds(b, e + e, bit);
    if bit == 1 {
        lemma_pow1(b);
    } else {
        lemma_pow0(b);
    }
    assert(pow(b, 2 * e + bit) == a * a * c);
    lemma_mul_mod_noop_left(a * a, c, p());
    lemma_mul_mod_noop(a, a, p());
    lemma_mul_mod_noop_left(v * v, c, p());
}

/// 31^1006632960 modulo p, by repeated squaring.
proof fn lemma_power_half()
    ensures
        pow(31, 1006632960) % p() == 2013265920,
{
    lemma_pow1(31);
    lemma_small_mod(31, p() as nat);
    lemma_pow_step(31, 1, 31, 1, 29791);
    lemma_pow_step(31, 3, 29791, 1, 1340157138);
    lemma_pow_step(31, 7, 1340157138, 1, 440564289);
    lemma_pow_step(31, 15, 440564289, 0, 975630072);
    lemma_pow_step(31, 30, 975630072, 0, 1149491290);
    lemma_pow_step(31, 60, 1149491290, 0, 1003846038);
    lemma_pow_step(31, 120, 1003846038, 0, 1267047229);
    lemma_pow_step(31, 240, 1267047229, 0, 570250684);
    lemma_pow_step(31, 480, 570250684, 0, 414040701);
    lemma_pow_step(31, 960, 414040701, 0, 195061667);
    lemma_pow_step(31, 1920, 195061667, 0, 1049899240);
    lemma_pow_step(31, 3840, 1049899240, 0, 1559589183);
    lemma_pow_step(31, 7680, 1559589183, 0, 1286330022);
    lemma_pow_step(31, 15360, 1286330022, 0, 1421947380);
    lemma_pow_step(31, 30720, 1421947380, 0, 2009781145);
    lemma_pow_step(31, 61440, 2009781145, 0, 1657000625);
    lemma_pow_step(31, 122880, 1657000625, 0, 298008106);
    lemma_pow_step(31, 245760, 298008106, 0, 1282623253);
    lemma_pow_step(31, 491520, 1282623253, 0, 1340477990);
    lemma_pow_step(31, 983040, 1340477990, 0, 341742893);
    lemma_pow_step(31, 1966080, 341742893, 0, 1753498361);
    lemma_pow_step(31, 3932160, 1753498361, 0, 1732600167);
    lemma_pow_step(31, 7864320, 1732600167, 0, 397765732);
    lemma_pow_step(31, 15728640, 397765732, 0, 1721589904);
    lemma_pow_step(31, 31457280, 1721589904, 0, 760005850);
    lemma_pow_step(31, 62914560, 760005850, 0, 196396260);
    lemma_pow_step(31, 125829120, 196396260, 0, 1592366214);
    lemma_pow_step(31, 251658240, 1592366214, 0, 1728404513);
    lemma_pow_step(31, 503316480, 1728404513, 0, 2013265920);
}

/// 31^671088640 modulo p, by repeated squaring.
proof fn lemma_power_third()
    ensures
        pow(31, 671088640) % p() == 1314723123,
{
    lemma_pow1(31);
    lemma_small_mod(31, p() as nat);
    lemma_pow_step(31, 1, 31, 0, 961);
    lemma_pow_step(31, 2, 961, 1, 28629151);
    lemma_pow_step(31, 5, 28629151, 0, 1558084728);
    lemma_pow_step(31, 10, 1558084728, 0, 1422208504);
    lemma_pow_step(31, 20, 1422208504, 0, 1678705229);
    lemma_pow_step(31, 40, 1678705229, 0, 1771892767);
    lemma_pow_step(31, 80, 1771892767, 0, 940487245);
    lemma_pow_step(31, 160, 940487245, 0, 1516982208);
    lemma_pow_step(31, 320, 1516982208, 0, 792115306);
    lemma_pow_step(31, 640, 792115306, 0, 452791590);
    lemma_pow_step(31, 1280, 452791590, 0, 1605829134);
    lemma_pow_step(31, 2560, 1605829134, 0, 2008025366);
    lemma_pow_step(31, 5120, 2008025366, 0, 456279664);
    lemma_pow_step(31, 10240, 456279664, 0, 1492617483);
    lemma_pow_step(31, 20480, 1492617483, 0, 1252078097);
    lemma_pow_step(31, 40960, 1252078097, 0, 12770214);
    lemma_pow_step(31, 81920, 12770214, 0, 1812738875);
    lemma_pow_step(31, 163840, 1812738875, 0, 1048536409);
    lemma_pow_step(31, 327680, 1048536409, 0, 434152628);
    lemma_pow_step(31, 655360, 434152628, 0, 1734511292);
    lemma_pow_step(31, 1310720, 1734511292, 0, 839726776);
    lemma_pow_step(31, 2621440, 839726776, 0, 629262984);
    lemma_pow_step(31, 5242880, 629262984, 0, 1502726565);
    lemma_pow_step(31, 10485760, 1502726565, 0, 48459945);
    lemma_pow_step(31, 20971520, 48459945, 0, 288916259);
    lemma_pow_step(31, 41943040, 288916259, 0, 503591070);
    lemma_pow_step(31, 83886080, 503591070, 0, 782862608);
    lemma_pow_step(31, 167772160, 782862608, 0, 1314723124);
    lemma_pow_step(31, 335544320, 1314723124, 0, 1314723123);
}

/// 31^402653184 modulo p, by repeated squaring.
proof fn lemma_power_fifth()
    ensures
        pow(31, 402653184) % p() == 645581151,
{
    lemma_pow1(31);
    lemma_small_mod(31, p() as nat);
    lemma_pow_step(31, 1, 31, 1, 29791);
    lemma_pow_step(31, 3, 29791, 0, 887503681);
    lemma_pow_step(31, 6, 887503681, 0, 1462844305);
    lemma_pow_step(31, 12, 1462844305, 0, 839089552);
    lemma_pow_step(31, 24, 839089552, 0, 1646113519);
    lemma_pow_step(31, 48, 1646113519, 0, 989735200);
    lemma_pow_step(31, 96, 989735200, 0, 354087134);
    lemma_pow_step(31, 192, 354087134, 0, 939704260);
    lemma_pow_step(31, 384, 939704260, 0, 210852613);
    lemma_pow_step(31, 768, 210852613, 0, 1924503713);
    lemma_pow_step(31, 1536, 1924503713, 0, 620932417);
    lemma_pow_step(31, 3072, 620932417, 0, 953858903);
    lemma_pow_step(31, 6144, 953858903, 0, 911499372);
    lemma_pow_step(31, 12288, 911499372, 0, 1788359951);
    lemma_pow_step(31, 24576, 1788359951, 0, 1109355884);
    lemma_pow_step(31, 49152, 1109355884, 0, 712883858);
    lemma_pow_step(31, 98304, 712883858, 0, 1634029288);
    lemma_pow_step(31, 196608, 1634029288, 0, 475368472);
    lemma_pow_step(31, 393216, 475368472, 0, 233410736);
    lemma_pow_step(31, 786432, 233410736, 0, 1351192264);
    lemma_pow_step(31, 1572864, 1351192264, 0, 1537548338);
    lemma_pow_step(31, 3145728, 1537548338, 0, 981668758);
    lemma_pow_step(31, 6291456, 981668758, 0, 410767134);
    lemma_pow_step(31, 12582912, 410767134, 0, 1902556399);
    lemma_pow_step(31, 25165824, 1902556399, 0, 422226006);
    lemma_pow_step(31, 50331648, 422226006, 0, 161600065);
    lemma_pow_step(31, 100663296, 161600065, 0, 1403701133);
    lemma_pow_step(31, 201326592, 1403701133, 0, 645581151);
}

/// 31^2013265920 modulo p, by repeated squaring.
pub(crate) proof fn lemma_power_full()
    ensures
        pow(31, 2013265920) % p() == 1,
{
    lemma_pow1(31);
    lemma_small_mod(31, p() as nat);
    lemma_pow_step(31, 1, 31, 1, 29791);
    lemma_pow_step(31, 3, 29791, 1, 1340157138);
    lemma_pow_step(31, 7, 1340157138, 1, 440564289);
    lemma_pow_step(31, 15, 440564289, 0, 975630072);
    lemma_pow_step(31, 30, 975630072, 0, 1149491290);
    lemma_pow_step(31, 60, 1149491290, 0, 1003846038);
    lemma_pow_step(31, 120, 1003846038, 0, 1267047229);
    lemma_pow_step(31, 240, 1267047229, 0, 570250684);
    lemma_pow_step(31, 480, 570250684, 0, 414040701);
    lemma_pow_step(31, 960, 414040701, 0, 195061667);
    lemma_pow_step(31, 1920, 195061667, 0, 1049899240);
    lemma_pow_step(31, 3840, 1049899240, 0, 1559589183);
    lemma_pow_step(31, 7680, 1559589183, 0, 1286330022);
    lemma_pow_step(31, 15360, 1286330022, 0, 1421947380);
    lemma_pow_step(31, 30720, 1421947380, 0, 2009781145);
    lemma_pow_step(31, 61440, 2009781145, 0, 1657000625);
    lemma_pow_step(31, 122880, 1657000625, 0, 298008106);
    lemma_pow_step(31, 245760, 298008106, 0, 1282623253);
    lemma_pow_step(31, 491520, 1282623253, 0, 1340477990);
    lemma_pow_step(31, 983040, 1340477990, 0, 341742893);
    lemma_pow_step(31, 1966080, 341742893, 0, 1753498361);
    lemma_pow_step(31, 3932160, 1753498361, 0, 1732600167);
    lemma_pow_step(31, 7864320, 1732600167, 0, 397765732);
    lemma_pow_step(31, 15728640, 397765732, 0, 1721589904);
    lemma_pow_step(31, 31457280, 1721589904, 0, 760005850);
    lemma_pow_step(31, 62914560, 760005850, 0, 196396260);
    lemma_pow_step(31, 125829120, 196396260, 0, 1592366214);
    lemma_pow_step(31, 251658240, 1592366214, 0, 1728404513);
    lemma_pow_step(31, 503316480, 1728404513, 0, 2013265920);
    lemma_pow_step(31, 1006632960, 2013265920, 0, 1);
}

/// The greatest common divisor, by Euclid's algorithm.
pub open spec fn gcd(a: nat, b: nat) -> nat
    decreases b,
{
    if b == 0 {
        a
    } else {
        gcd(b, a % b)
    }
}

/// The greatest common divisor divides both numbers and is positive when one is.
proof fn lemma_gcd_divides(a: nat, b: nat)
    ensures
        a > 0 || b > 0 ==> gcd(a, b) > 0,
        gcd(a, b) > 0 ==> a % gcd(a, b) == 0 && b % gcd(a, b) == 0,
        a > 0 && gcd(a, b) > 0 ==> gcd(a, b) <= a,
    decreases b,
{
    if b > 0 {
        let r = a % b;
        lemma_gcd_divides(b, r);
        let g = gcd(b, r);
        lemma_fundamental_div_mod(a as int, b as int);
        let q = a / b;
        if g > 0 {
            lemma_mod_multiples_basic(q as int * (b / g) as int, g as int);
            lemma_fundamental_div_mod(b as int, g as int);
            assert(b == g * (b / g));
            assert(q * b == q * (g * (b / g)));
            lemma_mul_is_associative(q as int, g as int, (b / g) as int);
            lemma_mul_is_commutative(q as int, g as int);
            lemma_mul_is_associative(g as int, q as int, (b / g) as int);
            lemma_mul_is_commutative(g as int, q as int * (b / g) as int);
            assert((q * b) % g == 0);
            lemma_add_mod_noop((q * b) as int, r as int, g as int);
            lemma_small_mod(0, g);
            if a > 0 {
                lemma_mod_is_zero(a, g);
            }
        }
    }
}

/// `x^a = 1` and `x^b = 1` give `x^(a mod b) = 1`.
pub(crate) proof fn lemma_pow_one_mod(x: int, a: nat, b: nat)
    requires
        b > 0,
        pow(x, a) % p() == 1,
        pow(x, b) % p() == 1,
    ensures
        pow(x, a % b) % p() == 1,
{
    let q = a / b;
    let r = a % b;
    lemma_fundamental_div_mod(a as int, b as int);
    lemma_pow_adds(x, b * q, r);
    lemma_pow_multiplies(x, b, q);
    lemma_pow_mod_noop(pow(x, b), q, p());
    lemma1_pow(q);
    lemma_small_mod(1, p() as nat);
    assert(pow(x, b * q) % p() == 1);
    lemma_mul_mod_noop_left(pow(x, b * q), pow(x, r), p());
    assert(1 * pow(x, r) == pow(x, r));
}

/// `x^a = 1` and `x^b = 1` give `x^gcd(a, b) = 1`.
proof fn lemma_pow_gcd(x: int, a: nat, b: nat)
    requires
        pow(x, a) % p() == 1,
        pow(x, b) % p() == 1,
    ensures
        pow(x, gcd(a, b)) % p() == 1,
    decreases b,
{
    if b > 0 {
        lemma_pow_one_mod(x, a, b);
        lemma_pow_gcd(x, b, a % b);
    }
}

/// An odd divisor of `2^j * c` divides `c`.
pub(crate) proof fn lemma_odd_divides(m: int, j: nat, c: int)
    requires
        m > 0,
        m % 2 == 1,
        c >= 0,
        (pow2(j) * c) % m == 0,
    ensures
        c % m == 0,
    decreases j,
{
    if j > 0 {
        let y = pow2((j - 1) as nat) * c;
        lemma_pow2_unfold(j);
        lemma_mul_is_associative(2, pow2((j - 1) as nat) as int, c);
        assert((2 * y) % m == 0);
        lemma_pow2_pos((j - 1) as nat);
        lemma_mul_nonnegative(pow2((j - 1) as nat) as int, c);
        let t = (2 * y) / m;
        lemma_fundamental_div_mod(2 * y, m);
        assert(2 * y == m * t);
        assert((m * t) % 2 == 0);
        lemma_mul_mod_noop(m, t, 2);
        assert(((m % 2) * (t % 2)) % 2 == 0);
        assert(t % 2 == 0) by {
            lemma_small_mod((t % 2) as nat, 2);
        }
        let s = t / 2;
        lemma_fundamental_div_mod(t, 2);
        assert(y == m * s) by {
            lemma_mul_is_associative(m, 2, s);
            lemma_mul_is_commutative(m, 2);
            lemma_mul_is_associative(2, m, s);
        }
        lemma_mod_multiples_basic(s, m);
        lemma_mul_is_commutative(s, m);
        lemma_odd_divides(m, (j - 1) as nat, c);
    } else {
        assert(pow2(0) == 1) by {
            lemma2_to64();
        }
    }
}

/// If `x^g = 1` then `x^(g * c) = 1`.
proof fn lemma_pow_one_multiple(x: int, g: nat, c: nat)
    requires
        pow(x, g) % p() == 1,
    ensures
        pow(x, g * c) % p() == 1,
{
    lemma_pow_multiplies(x, g, c);
    lemma_pow_mod_noop(pow(x, g), c, p());
    lemma1_pow(c);
    lemma_small_mod(1, p() as nat);
}

/// 31 has multiplicative order p - 1: no smaller positive power of it is one.
pub proof fn lemma_generator_order(k: nat)
    requires
        0 < k < p() - 1,
    ensures
        pow(31, k) % p() != 1,
{
    if pow(31, k) % p() == 1 {
        let n: nat = 2013265920;
        lemma_power_full();
        lemma_pow_gcd(31, k, n);
        lemma_gcd_divides(k, n);
        let g = gcd(k, n);
        let m = n / g;
        lemma_fundamental_div_mod(n as int, g as int);
        assert(n == g * m);
        assert(m >= 2) by {
            if m <= 1 {
                assert(g * m <= g) by (nonlinear_arith)
                    requires
                        m <= 1,
                        g > 0,
                ;
            }
        }
        if m % 2 == 0 {
            lemma_fundamental_div_mod(m as int, 2);
            lemma_pow_one_multiple(31, g, m / 2);
            assert(g * (m / 2) == 1006632960) by (nonlinear_arith)
                requires
                    n == g * m,
                    m == 2 * (m / 2),
                    n == 2013265920,
            ;
            lemma_power_half();
        } else if m % 3 == 0 {
            lemma_fundamental_div_mod(m as int, 3);
            lemma_pow_one_multiple(31, g, m / 3);
            assert(g * (m / 3) == 671088640) by (nonlinear_arith)
                requires
                    n == g * m,
                    m == 3 * (m / 3),
                    n == 2013265920,
            ;
            lemma_power_third();
        } else if m % 5 == 0 {
            lemma_fundamental_div_mod(m as int, 5);
            lemma_pow_one_multiple(31, g, m / 5);
            assert(g * (m / 5) == 402653184) by (nonlinear_arith)
                requires
                    n == g * m,
                    m == 5 * (m / 5),
                    n == 2013265920,
            ;
            lemma_power_fifth();
        } else {
            lemma2_to64();
            assert(pow2(27) * 15 == n);
            lemma_mod_multiples_basic(g as int, m as int);
            lemma_mul_is_commutative(g as int, m as int);
            lemma_odd_divides(m as int, 27, 15);
            assert(15int % (m as int) == 0);
            assert(m <= 15) by {
                if m > 15 {
                    lemma_small_mod(15, m);
                }
            }
            assert(m == 7 || m == 11 || m == 13);
            if m == 7 {
                assert(15int % 7int == 1);
            } else if m == 11 {
                assert(15int % 11int == 4);
            } else {
                assert(15int % 13int == 2);
            }
        }
    }
}

/// Products of invertible elements are invertible.
pub proof fn lemma_invertible_mul(a: int, b: int)
    requires
        is_invertible(a),
        is_invertible(b),
    ensures
        is_invertible(a * b),
{
    let x = choose|x: int| 0 <= x < p() && #[trigger] ((a * x) % p()) == 1;
    let y = choose|y: int| 0 <= y < p() && #[trigger] ((b * y) % p()) == 1;
    let z = (x * y) % p();
    assert((a * x) * (b * y) == (a * b) * (x * y)) by (nonlinear_arith);
    lemma_mul_mod_noop(a * x, b * y, p());
    lemma_mul_mod_noop_right(a * b, x * y, p());
    lemma_small_mod(1, p() as nat);
    assert(((a * b) * z) % p() == 1);
}

/// Powers of 31 are invertible.
proof fn lemma_pow31_invertible(i: nat)
    ensures
        is_invertible(pow(31, i)),
    decreases i,
{
    if i == 0 {
        lemma_pow0(31);
        lemma_small_mod(1, p() as nat);
        assert((1int * 1int) % p() == 1);
    } else {
        lemma_pow31_invertible((i - 1) as nat);
        lemma_pow_adds(31, (i - 1) as nat, 1);
        lemma_pow1(31);
        assert(31int * 64944062int == 2013265922);
        lemma_fundamental_div_mod_converse(2013265922, p(), 1, 1);
        assert((31int * 64944062int) % p() == 1);
        lemma_invertible_mul(pow(31, (i - 1) as nat), 31);
    }
}

/// An invertible element is not a multiple of p.
proof fn lemma_invertible_nonzero(a: int)
    requires
        is_invertible(a),
    ensures
        a % p() != 0,
{
    let x = choose|x: int| 0 <= x < p() && #[trigger] ((a * x) % p()) == 1;
    lemma_mul_mod_noop_left(a, x, p());
    if a % p() == 0 {
        assert(0 * x == 0);
        lemma_small_mod(0, p() as nat);
    }
}

/// The powers 31^0, ..., 31^(p-2) are distinct modulo p.
proof fn lemma_powers_distinct(i: nat, j: nat)
    requires
        i < j < p() - 1,
    ensures
        pow(31, i) % p() != pow(31, j) % p(),
{
    if pow(31, i) % p() == pow(31, j) % p() {
        let c = pow(31, i);
        let d = pow(31, (j - i) as nat);
        lemma_pow_adds(31, i, (j - i) as nat);
        assert(pow(31, j) == c * d);
        lemma_pow31_invertible(i);
        lemma_mul_is_distributive_sub(c, d, 1);
        lemma_sub_mod_noop(c * d, c, p());
        lemma_small_mod(0, p() as nat);
        assert(((d - 1) * c) % p() == 0) by {
            lemma_mul_is_commutative(d - 1, c);
        }
        lemma_cancel_invertible(d - 1, c);
        lemma_add_mod_noop(d - 1, 1, p());
        lemma_small_mod(1, p() as nat);
        lemma_generator_order((j - i) as nat);
    }
}

/// Every nonzero residue is a power of 31.
proof fn lemma_residues_are_powers(a: int)
    requires
        0 < a < p(),
    ensures
        exists|i: nat| i < p() - 1 && #[trigger] (pow(31, i) % p()) == a,
{
    let dom = set_int_range(0, p() - 1);
    let f = |i: int| pow(31, i as nat) % p();
    let img = dom.map(f);
    let range = set_int_range(1, p());
    assert(injective_on(f, dom)) by {
        assert forall|x1: int, x2: int|
            dom.contains(x1) && dom.contains(x2) && #[trigger] f(x1) == #[trigger] f(x2) implies x1
            == x2 by {
            if x1 < x2 {
                lemma_powers_distinct(x1 as nat, x2 as nat);
            } else if x2 < x1 {
                lemma_powers_distinct(x2 as nat, x1 as nat);
            }
        }
    }
    lemma_int_range(0, p() - 1);
    lemma_int_range(1, p());
    lemma_map_size(dom, img, f);
    assert(img.subset_of(range)) by {
        assert forall|y: int| img.contains(y) implies range.contains(y) by {
            let x = choose|x: int| dom.contains(x) && y == f(x);
            lemma_pow31_invertible(x as nat);
            lemma_invertible_nonzero(pow(31, x as nat));
        }
    }
    lemma_subset_equality(img, range);
    assert(range.contains(a));
    let x = choose|x: int| dom.contains(x) && a == f(x);
    assert(pow(31, x as nat) % p() == a);
}

/// p is prime: every element that is not a multiple of p has an inverse.
pub proof fn lemma_nonzero_invertible(a: int)
    requires
        a % p() != 0,
    ensures
        is_invertible(a),
{
    let r = a % p();
    lemma_residues_are_powers(r);
    let i = choose|i: nat| i < p() - 1 && #[trigger] (pow(31, i) % p()) == r;
    lemma_pow31_invertible(i);
    lemma_invertible_mod(pow(31, i));
    lemma_invertible_mod(a);
}

/// Fermat's little theorem: every element that is not a multiple of p has `a^(p-1) = 1`.
pub proof fn lemma_fermat(a: int)
    requires
        a % p() != 0,
    ensures
        pow(a, 2013265920) % p() == 1,
{
    let r = a % p();
    let n: nat = 2013265920;
    lemma_residues_are_powers(r);
    let i = choose|i: nat| i < p() - 1 && #[trigger] (pow(31, i) % p()) == r;
    lemma_pow_mod_noop(a, n, p());
    lemma_pow_mod_noop(pow(31, i), n, p());
    lemma_pow_multiplies(31, i, n);
    lemma_mul_is_commutative(i as int, n as int);
    lemma_power_full();
    lemma_pow_one_multiple(31, n, i);
}

/// `u` lies in the subgroup of order 2^27.
pub open spec fn in_two_group(u: int) -> bool {
    pow(u, pow2(27)) % p() == 1
}

/// The roots of unity of two-power order lie in the subgroup of order 2^27.
pub proof fn lemma_root_in_two_group(k: nat)
    requires
        k <= 27,
    ensures
        in_two_group(root_of_unity_spec(k)),
{
    lemma_two_adic_root_order();
    lemma2_to64();
    if k == 0 {
        assert(root_of_unity_spec(0) == 1);
        lemma1_pow(pow2(27));
        lemma_small_mod(1, p() as nat);
    } else {
        lemma_root_of_unity(k);
        let r = root_of_unity_spec(k);
        lemma_pow2_adds(k, (27 - k) as nat);
        lemma_pow_multiplies(r, pow2(k), pow2((27 - k) as nat));
        lemma_pow_mod_noop(pow(r, pow2(k)), pow2((27 - k) as nat), p());
        lemma1_pow(pow2((27 - k) as nat));
        lemma_small_mod(1, p() as nat);
    }
}

/// The subgroup of order 2^27 is closed under powers and reduction.
pub proof fn lemma_two_group_pow(u: int, i: nat)
    requires
        in_two_group(u),
    ensures
        in_two_group(pow(u, i)),
        in_two_group(pow(u, i) % p()),
{
    let e = pow2(27);
    lemma_pow_multiplies(u, i, e);
    lemma_pow_multiplies(u, e, i);
    lemma_mul_is_commutative(i as int, e as int);
    lemma_pow_mod_noop(pow(u, e), i, p());
    lemma1_pow(i);
    lemma_small_mod(1, p() as nat);
    lemma_pow_mod_noop(pow(u, i), e, p());
}

/// 31 times an element of the subgroup of order 2^27 is never in that subgroup.
pub proof fn lemma_coset_avoids_two_group(u: int, v: int)
    requires
        in_two_group(u),
        in_two_group(v),
    ensures
        (31 * u) % p() != v % p(),
{
    let e = pow2(27);
    if (31 * u) % p() == v % p() {
        lemma_pow_mod_noop(31 * u, e, p());
        lemma_pow_mod_noop(v, e, p());
        lemma_pow_distributes(31, u, e);
        lemma_mul_mod_noop_right(pow(31, e), pow(u, e), p());
        assert(pow(31, e) * 1 == pow(31, e));
        lemma2_to64();
        lemma_generator_order(e);
    }
}

/// A power of an element of the coset `31 * (subgroup of order 2^27)` is one only for
/// exponents that are multiples of 15.
pub proof fn lemma_coset_power_not_one(u: int, n: nat)
    requires
        in_two_group(u),
        n % 15 != 0,
    ensures
        pow((31 * u) % p(), n) % p() != 1,
{
    let e = pow2(27);
    let x = 31 * u;
    if pow(x % p(), n) % p() == 1 {
        lemma_pow_mod_noop(x, n, p());
        // raise to 2^27
        lemma_pow_mod_noop(pow(x, n), e, p());
        lemma1_pow(e);
        lemma_small_mod(1, p() as nat);
        assert(pow(pow(x, n), e) % p() == 1);
        lemma_pow_multiplies(x, n, e);
        lemma_pow_distributes(31, u, n * e);
        lemma_pow_multiplies(u, e, n);
        lemma_mul_is_commutative(n as int, e as int);
        lemma_pow_mod_noop(pow(u, e), n, p());
        lemma1_pow(n);
        lemma_mul_mod_noop_right(pow(31, n * e), pow(u, n * e), p());
        assert(pow(31, n * e) * 1 == pow(31, n * e));
        assert(pow(31, n * e) % p() == 1);
        // so p - 1 divides n * 2^27
        lemma_power_full();
        lemma_pow_one_mod(31, n * e, 2013265920);
        let r = (n * e) % 2013265920;
        if r > 0 {
            lemma_generator_order(r);
        }
        lemma2_to64();
        lemma_fundamental_div_mod((n * e) as int, 2013265920);
        let q = (n * e) / 2013265920;
        assert(n * e == 15 * e * q) by {
            assert(2013265920 == 15 * e);
        }
        assert(n == 15 * q) by (nonlinear_arith)
            requires
                n * e == 15 * e * q,
                e > 0,
        ;
        lemma_mod_multiples_basic(q as int, 15);
        lemma_mul_is_commutative(q as int, 15);
    }
}

/// Powers of an invertible element are invertible.
pub proof fn lemma_pow_invertible(b: int, i: nat)
    requires
        is_invertible(b),
    ensures
        is_invertible(pow(b, i)),
    decreases i,
{
    if i == 0 {
        lemma_pow0(b);
        lemma_small_mod(1, p() as nat);
        assert((1int * 1int) % p() == 1);
    } else {
        lemma_pow_invertible(b, (i - 1) as nat);
        lemma_pow_adds(b, (i - 1) as nat, 1);
        lemma_pow1(b);
        lemma_invertible_mul(pow(b, (i - 1) as nat), b);
    }
}

/// The root of unity of order 2^l has order exactly 2^l: no smaller positive power of it
/// is one.
pub proof fn lemma_root_order(l: nat, k: nat)
    requires
        1 <= l <= 27,
        0 < k < pow2(l),
    ensures
        pow(root_of_unity_spec(l), k) % p() != 1,
{
    let g = root_of_unity_spec(l);
    let n = pow2(l);
    lemma_root_of_unity(l);
    if pow(g, k) % p() == 1 {
        lemma_pow_gcd(g, k, n);
        lemma_gcd_divides(k, n);
        let d = gcd(k, n);
        let m = n / d;
        lemma_fundamental_div_mod(n as int, d as int);
        assert(n == d * m);
        assert(m >= 2) by {
            if m <= 1 {
                assert(d * m <= d) by (nonlinear_arith)
                    requires
                        m <= 1,
                        d > 0,
                ;
            }
        }
        if m % 2 == 0 {
            lemma_fundamental_div_mod(m as int, 2);
            lemma_pow_one_multiple(g, d, m / 2);
            lemma_pow2_unfold(l);
            assert(d * (m / 2) == pow2((l - 1) as nat)) by (nonlinear_arith)
                requires
                    n == d * m,
                    m == 2 * (m / 2),
                    n == 2 * pow2((l - 1) as nat),
            ;
            assert(p() - 1 != 1);
        } else {
            lemma_mod_multiples_basic(d as int, m as int);
            lemma_mul_is_commutative(d as int, m as int);
            assert(((pow2(l) * 1) as int) % (m as int) == 0);
            lemma_odd_divides(m as int, l, 1);
            lemma_small_mod(1, m);
        }
    }
}

/// Distinct powers below 2^l of the root of unity of order 2^l are distinct field
/// elements.
pub proof fn lemma_root_powers_distinct(l: nat, i: nat, j: nat)
    requires
        1 <= l <= 27,
        i < j < pow2(l),
    ensures
        (pow(root_of_unity_spec(l), j) % p() - pow(root_of_unity_spec(l), i) % p()) % p() != 0,
{
    let g = root_of_unity_spec(l);
    lemma_root_of_unity(l);
    if (pow(g, j) % p() - pow(g, i) % p()) % p() == 0 {
        let c = pow(g, i);
        let d = pow(g, (j - i) as nat);
        lemma_pow_adds(g, i, (j - i) as nat);
        assert(pow(g, j) == c * d);
        lemma_sub_mod_noop(pow(g, j), pow(g, i), p());
        lemma_mod_twice(pow(g, j), p());
        lemma_mod_twice(pow(g, i), p());
        // g is invertible: g * g^(2^l - 1) = 1
        lemma_pow_adds(g, 1, (pow2(l) - 1) as nat);
        lemma_pow1(g);
        lemma_mul_mod_noop_right(g, pow(g, (pow2(l) - 1) as nat), p());
        lemma_mod_bound(pow(g, (pow2(l) - 1) as nat), p());
        assert((g * (pow(g, (pow2(l) - 1) as nat) % p())) % p() == 1);
        lemma_pow_invertible(g, i);
        lemma_mul_is_distributive_sub(c, d, 1);
        assert(((d - 1) * c) % p() == 0) by {
            lemma_mul_is_commutative(d - 1, c);
        }
        lemma_cancel_invertible(d - 1, c);
        lemma_add_mod_noop(d - 1, 1, p());
        lemma_small_mod(1, p() as nat);
        lemma_root_order(l, (j - i) as nat);
    }
}

} // verus!
