//! The BabyBear prime field GF(p), p = 15 * 2^27 + 1.
//!
//! Every element carries a `u32` word; its mathematical value is that word
//! reduced modulo p (`val`). All operations are stated over `val`.
use vstd::arithmetic::div_mod::*;
use vstd::arithmetic::mul::*;
use vstd::arithmetic::power::*;
use vstd::arithmetic::power2::*;
use vstd::prelude::*;
use vstd::std_specs::cmp::PartialEqSpecImpl;

verus! {

/// The field modulus p = 2013265921.
pub const MODULUS: u64 = 2013265921;

/// The largest k such that 2^k divides p - 1.
pub const TWO_ADICITY: u32 = 27;

/// A generator of the multiplicative group.
pub const GENERATOR: u64 = 31;

/// GENERATOR^((p - 1) / 2^27): a primitive 2^27-th root of unity.
pub const TWO_ADIC_ROOT_OF_UNITY: u64 = 440564289;

/// p as a mathematical integer.
pub open spec fn p() -> int {
    MODULUS as int
}

/// `a` has a multiplicative inverse modulo p.
pub open spec fn is_invertible(a: int) -> bool {
    exists|x: int| 0 <= x < p() && #[trigger] ((a * x) % p()) == 1
}

/// The inverse of `a` modulo p, when it has one.
pub open spec fn inv_spec(a: int) -> int {
    inv_residue(a % p())
}

/// The inverse of the residue `r`, when it has one.
pub open spec fn inv_residue(r: int) -> int {
    choose|x: int| 0 <= x < p() && #[trigger] ((r * x) % p()) == 1
}

/// Inverses modulo p are unique.
pub proof fn lemma_inverse_unique(a: int, x: int, y: int)
    requires
        (a * x) % p() == 1,
        (a * y) % p() == 1,
        0 <= x < p(),
        0 <= y < p(),
    ensures
        x == y,
{
    lemma_mul_mod_noop_right(x, a * y, p());
    lemma_mul_is_associative(x, a, y);
    lemma_mul_is_commutative(x, a);
    lemma_mul_mod_noop_left(x * a, y, p());
    lemma_small_mod(x as nat, p() as nat);
    lemma_small_mod(y as nat, p() as nat);
    assert(x * 1 == x);
    assert(1 * y == y);
}

/// Invertibility only depends on the residue.
pub proof fn lemma_invertible_mod(a: int)
    ensures
        is_invertible(a) <==> is_invertible(a % p()),
        inv_spec(a) == inv_spec(a % p()),
{
    assert forall|x: int| 0 <= x < p() implies (#[trigger] ((a * x) % p()) == 1 <==> ((a % p()) * x)
        % p() == 1) by {
        lemma_mul_mod_noop_left(a, x, p());
    }
    if is_invertible(a) {
        let x = choose|x: int| 0 <= x < p() && #[trigger] ((a * x) % p()) == 1;
        assert(((a % p()) * x) % p() == 1);
    }
    if is_invertible(a % p()) {
        let x = choose|x: int| 0 <= x < p() && #[trigger] (((a % p()) * x) % p()) == 1;
        assert((a * x) % p() == 1);
    }
    lemma_mod_twice(a, p());
}

/// `a` times its inverse is one, for an invertible `a`.
pub proof fn lemma_inverse_spec(a: int)
    requires
        is_invertible(a),
    ensures
        (a * inv_spec(a)) % p() == 1,
{
    lemma_invertible_mod(a);
    let r = a % p();
    assert(is_invertible(r));
    let x = inv_spec(a);
    assert((r * x) % p() == 1);
    lemma_mul_mod_noop_left(a, x, p());
}

/// Little-endian integer value of a byte string.
pub open spec fn le_bytes_value(s: Seq<u8>) -> nat
    decreases s.len(),
{
    if s.len() == 0 {
        0
    } else {
        s[0] as nat + 256 * le_bytes_value(s.drop_first())
    }
}

/// The `k`-th little-endian byte of the integer `x`.
pub open spec fn byte_of(x: int, k: nat) -> u8 {
    ((x / pow(256, k)) % 256) as u8
}

/// The unique root of unity of order 2^log_n that the field offers, for log_n <= 27:
/// the two-adic root raised to 2^(27 - log_n).
pub open spec fn root_of_unity_spec(log_n: nat) -> int {
    pow(TWO_ADIC_ROOT_OF_UNITY as int, pow2((27 - log_n) as nat)) % p()
}

/// Repeated squaring of the two-adic root: sq_chain(i) = ROOT^(2^i) mod p.
spec fn sq_chain(i: nat) -> int
    decreases i,
{
    if i == 0 {
        TWO_ADIC_ROOT_OF_UNITY as int
    } else {
        (sq_chain((i - 1) as nat) * sq_chain((i - 1) as nat)) % p()
    }
}

proof fn lemma_sq_chain_is_pow(i: nat)
    ensures
        pow(TWO_ADIC_ROOT_OF_UNITY as int, pow2(i)) % p() == sq_chain(i),
    decreases i,
{
    let g = TWO_ADIC_ROOT_OF_UNITY as int;
    if i == 0 {
        lemma2_to64();
        lemma_pow1(g);
        lemma_small_mod(g as nat, p() as nat);
    } else {
        lemma_sq_chain_is_pow((i - 1) as nat);
        let e = pow2((i - 1) as nat);
        lemma_pow2_unfold(i);
        lemma_pow_adds(g, e, e);
        lemma_mul_mod_noop(pow(g, e), pow(g, e), p());
    }
}

proof fn lemma_sq_chain_values()
    ensures
        sq_chain(26) == p() - 1,
        sq_chain(27) == 1,
{
        assert(sq_chain(0) == 440564289);
        assert(440564289int * 440564289int == 194096892742075521int);
        lemma_fundamental_div_mod_converse(194096892742075521int, p(), 96408969int, 975630072int);
        assert(sq_chain(1) == 975630072);
        assert(975630072int * 975630072int == 951854037390725184int);
        lemma_fundamental_div_mod_converse(951854037390725184int, p(), 472791014int, 1149491290int);
        assert(sq_chain(2) == 1149491290);
        assert(1149491290int * 1149491290int == 1321330225785864100int);
        lemma_fundamental_div_mod_converse(1321330225785864100int, p(), 656311822int, 1003846038int);
        assert(sq_chain(3) == 1003846038);
        assert(1003846038int * 1003846038int == 1007706868008297444int);
        lemma_fundamental_div_mod_converse(1007706868008297444int, p(), 500533415int, 1267047229int);
        assert(sq_chain(4) == 1267047229);
        assert(1267047229int * 1267047229int == 1605408680516578441int);
        lemma_fundamental_div_mod_converse(1605408680516578441int, p(), 797415117int, 570250684int);
        assert(sq_chain(5) == 570250684);
        assert(570250684int * 570250684int == 325185842602467856int);
        lemma_fundamental_div_mod_converse(325185842602467856int, p(), 161521555int, 414040701int);
        assert(sq_chain(6) == 414040701);
        assert(414040701int * 414040701int == 171429702084571401int);
        lemma_fundamental_div_mod_converse(171429702084571401int, p(), 85150054int, 195061667int);
        assert(sq_chain(7) == 195061667);
        assert(195061667int * 195061667int == 38049053932818889int);
        lemma_fundamental_div_mod_converse(38049053932818889int, p(), 18899169int, 1049899240int);
        assert(sq_chain(8) == 1049899240);
        assert(1049899240int * 1049899240int == 1102288414152577600int);
        lemma_fundamental_div_mod_converse(1102288414152577600int, p(), 547512577int, 1559589183int);
        assert(sq_chain(9) == 1559589183);
        assert(1559589183int * 1559589183int == 2432318419730607489int);
        lemma_fundamental_div_mod_converse(2432318419730607489int, p(), 1208145627int, 1286330022int);
        assert(sq_chain(10) == 1286330022);
        assert(1286330022int * 1286330022int == 1654644925498520484int);
        lemma_fundamental_div_mod_converse(1654644925498520484int, p(), 821871024int, 1421947380int);
        assert(sq_chain(11) == 1421947380);
        assert(1421947380int * 1421947380int == 2021934351488864400int);
        lemma_fundamental_div_mod_converse(2021934351488864400int, p(), 1004305655int, 2009781145int);
        assert(sq_chain(12) == 2009781145);
        assert(2009781145int * 2009781145int == 4039220250797511025int);
        lemma_fundamental_div_mod_converse(4039220250797511025int, p(), 2006302400int, 1657000625int);
        assert(sq_chain(13) == 1657000625);
        assert(1657000625int * 1657000625int == 2745651071250390625int);
        lemma_fundamental_div_mod_converse(2745651071250390625int, p(), 1363779639int, 298008106int);
        assert(sq_chain(14) == 298008106);
        assert(298008106int * 298008106int == 88808831241707236int);
        lemma_fundamental_div_mod_converse(88808831241707236int, p(), 44111823int, 1282623253int);
        assert(sq_chain(15) == 1282623253);
        assert(1282623253int * 1282623253int == 1645122409136302009int);
        lemma_fundamental_div_mod_converse(1645122409136302009int, p(), 817141139int, 1340477990int);
        assert(sq_chain(16) == 1340477990);
        assert(1340477990int * 1340477990int == 1796881241674440100int);
        lemma_fundamental_div_mod_converse(1796881241674440100int, p(), 892520567int, 341742893int);
        assert(sq_chain(17) == 341742893);
        assert(341742893int * 341742893int == 116788204916009449int);
        lemma_fundamental_div_mod_converse(116788204916009449int, p(), 58009328int, 1753498361int);
        assert(sq_chain(18) == 1753498361);
        assert(1753498361int * 1753498361int == 3074756502029686321int);
        lemma_fundamental_div_mod_converse(3074756502029686321int, p(), 1527248074int, 1732600167int);
        assert(sq_chain(19) == 1732600167);
        assert(1732600167int * 1732600167int == 3001903338688427889int);
        lemma_fundamental_div_mod_converse(3001903338688427889int, p(), 1491061517int, 397765732int);
        assert(sq_chain(20) == 397765732);
        assert(397765732int * 397765732int == 158217577553495824int);
        lemma_fundamental_div_mod_converse(158217577553495824int, p(), 78587520int, 1721589904int);
        assert(sq_chain(21) == 1721589904);
        assert(1721589904int * 1721589904int == 2963871797554729216int);
        lemma_fundamental_div_mod_converse(2963871797554729216int, p(), 1472171046int, 760005850int);
        assert(sq_chain(22) == 760005850);
        assert(760005850int * 760005850int == 577608892034222500int);
        lemma_fundamental_div_mod_converse(577608892034222500int, p(), 286901440int, 196396260int);
        assert(sq_chain(23) == 196396260);
        assert(196396260int * 196396260int == 38571490941987600int);
        lemma_fundamental_div_mod_converse(38571490941987600int, p(), 19158666int, 1592366214int);
        assert(sq_chain(24) == 1592366214);
        assert(1592366214int * 1592366214int == 2535630159488693796int);
        lemma_fundamental_div_mod_converse(2535630159488693796int, p(), 1259461123int, 1728404513int);
        assert(sq_chain(25) == 1728404513);
        assert(1728404513int * 1728404513int == 2987382160558767169int);
        lemma_fundamental_div_mod_converse(2987382160558767169int, p(), 1483848769int, 2013265920int);
        assert(sq_chain(26) == 2013265920);
        assert(2013265920int * 2013265920int == 4053239664633446400int);
        lemma_fundamental_div_mod_converse(4053239664633446400int, p(), 2013265919int, 1int);
        assert(sq_chain(27) == 1);
}

/// The two-adic root has order exactly 2^27: its 2^26-th power is -1.
pub proof fn lemma_two_adic_root_order()
    ensures
        pow(TWO_ADIC_ROOT_OF_UNITY as int, pow2(26)) % p() == p() - 1,
        pow(TWO_ADIC_ROOT_OF_UNITY as int, pow2(27)) % p() == 1,
{
    lemma_sq_chain_is_pow(26);
    lemma_sq_chain_is_pow(27);
    lemma_sq_chain_values();
}

/// The roots of unity of successive two-power orders square into each other,
/// and the root of order 2^l has order exactly 2^l.
pub proof fn lemma_root_of_unity(l: nat)
    requires
        1 <= l <= 27,
    ensures
        (root_of_unity_spec(l) * root_of_unity_spec(l)) % p() == root_of_unity_spec((l - 1) as nat),
        pow(root_of_unity_spec(l), pow2((l - 1) as nat)) % p() == p() - 1,
        pow(root_of_unity_spec(l), pow2(l)) % p() == 1,
        0 <= root_of_unity_spec(l) < p(),
{
    let g = TWO_ADIC_ROOT_OF_UNITY as int;
    let e = pow2((27 - l) as nat);
    lemma_two_adic_root_order();
    lemma_mul_mod_noop(pow(g, e), pow(g, e), p());
    lemma_pow_adds(g, e, e);
    lemma_pow2_unfold((28 - l) as nat);
    assert((27 - (l - 1)) as nat == (28 - l) as nat);
    lemma_pow_mod_noop(pow(g, e), pow2((l - 1) as nat), p());
    lemma_pow_multiplies(g, e, pow2((l - 1) as nat));
    lemma_pow2_adds((27 - l) as nat, (l - 1) as nat);
    assert((27 - l) as nat + (l - 1) as nat == 26);
    lemma_pow_mod_noop(pow(g, e), pow2(l), p());
    lemma_pow_multiplies(g, e, pow2(l));
    lemma_pow2_adds((27 - l) as nat, l);
    assert((27 - l) as nat + l == 27);
}

/// The root of unity of order 1 is 1.
pub proof fn lemma_root_of_unity_zero()
    ensures
        root_of_unity_spec(0) == 1,
{
    lemma_two_adic_root_order();
}

/// The values of a sequence of field elements.
pub open spec fn vals(s: Seq<FpBabyBear>) -> Seq<int> {
    s.map_values(|x: FpBabyBear| x.val())
}

pub proof fn lemma_vals_push(s: Seq<FpBabyBear>, x: FpBabyBear)
    ensures
        vals(s.push(x)) == vals(s).push(x.val()),
{
    assert(vals(s.push(x)) =~= vals(s).push(x.val()));
}

/// An element of the BabyBear field.
#[derive(Clone, Copy, Debug, Hash)]
pub struct FpBabyBear {
    v: u32,
}

impl FpBabyBear {
    /// The value of the element, in 0..p.
    pub closed spec fn val(self) -> int {
        self.v as int % p()
    }

    pub broadcast proof fn lemma_val_range(x: FpBabyBear)
        ensures
            0 <= #[trigger] x.val() < p(),
    {
    }

    proof fn lemma_canonical(w: u64)
        requires
            w < MODULUS,
        ensures
            (FpBabyBear { v: w as u32 }).val() == w,
    {
        lemma_small_mod(w as nat, p() as nat);
    }

    /// The element `x mod p`.
    pub fn from_u64(x: u64) -> (r: FpBabyBear)
        ensures
            r.val() == x as int % p(),
    {
        let w: u64 = x % MODULUS;
        proof {
            Self::lemma_canonical(w);
        }
        FpBabyBear { v: w as u32 }
    }

    pub fn zero() -> (r: FpBabyBear)
        ensures
            r.val() == 0,
    {
        proof {
            Self::lemma_canonical(0);
        }
        FpBabyBear { v: 0 }
    }

    pub fn one() -> (r: FpBabyBear)
        ensures
            r.val() == 1,
    {
        proof {
            Self::lemma_canonical(1);
        }
        FpBabyBear { v: 1 }
    }

    /// The canonical integer representative, in 0..p.
    pub fn value(&self) -> (r: u64)
        ensures
            r == self.val(),
    {
        (self.v as u64) % MODULUS
    }

    pub fn is_zero(&self) -> (r: bool)
        ensures
            r == (self.val() == 0),
    {
        self.value() == 0
    }

    pub fn is_one(&self) -> (r: bool)
        ensures
            r == (self.val() == 1),
    {
        self.value() == 1
    }

    pub fn add(self, other: FpBabyBear) -> (r: FpBabyBear)
        ensures
            r.val() == (self.val() + other.val()) % p(),
    {
        let a: u64 = self.value();
        let b: u64 = other.value();
        let s: u64 = (a + b) % MODULUS;
        proof {
            Self::lemma_canonical(s);
        }
        FpBabyBear { v: s as u32 }
    }

    pub fn sub(self, other: FpBabyBear) -> (r: FpBabyBear)
        ensures
            r.val() == (self.val() - other.val()) % p(),
    {
        let a: u64 = self.value();
        let b: u64 = other.value();
        let s: u64 = (a + MODULUS - b) % MODULUS;
        proof {
            Self::lemma_canonical(s);
            lemma_mod_add_multiples_vanish(a - b, p());
        }
        FpBabyBear { v: s as u32 }
    }

    pub fn neg(self) -> (r: FpBabyBear)
        ensures
            r.val() == (-self.val()) % p(),
    {
        let z: FpBabyBear = FpBabyBear::zero();
        z.sub(self)
    }

    pub fn mul(self, other: FpBabyBear) -> (r: FpBabyBear)
        ensures
            r.val() == (self.val() * other.val()) % p(),
    {
        let a: u64 = self.value();
        let b: u64 = other.value();
        proof {
            lemma_mul_upper_bound(a as int, 0x7fff_ffff, b as int, 0x7fff_ffff);
            assert(0x7fff_ffffint * 0x7fff_ffffint < 0x1_0000_0000_0000_0000);
        }
        let s: u64 = (a * b) % MODULUS;
        proof {
            Self::lemma_canonical(s);
        }
        FpBabyBear { v: s as u32 }
    }

    pub fn square(self) -> (r: FpBabyBear)
        ensures
            r.val() == (self.val() * self.val()) % p(),
    {
        self.mul(self)
    }

    pub fn double(self) -> (r: FpBabyBear)
        ensures
            r.val() == (2 * self.val()) % p(),
    {
        self.add(self)
    }

    /// `self` raised to the power `e`.
    pub fn pow(self, e: u64) -> (r: FpBabyBear)
        ensures
            r.val() == pow(self.val(), e as nat) % p(),
    {
        let mut res: FpBabyBear = FpBabyBear::one();
        let mut base: FpBabyBear = self;
        let mut k: u64 = e;
        proof {
            lemma_pow0(base.val());
            lemma_small_mod(1nat, p() as nat);
        }
        while k > 0
            invariant
                (res.val() * pow(base.val(), k as nat)) % p() == pow(self.val(), e as nat) % p(),
            decreases k,
        {
            let ghost r0 = res.val();
            let ghost b0 = base.val();
            let ghost k0 = k as nat;
            if k % 2 == 1 {
                res = res.mul(base);
                proof {
                    // r0 * b0^k0 == (r0 * b0) * b0^(k0 - 1)
                    lemma_pow_adds(b0, 1, (k0 - 1) as nat);
                    lemma_pow1(b0);
                    lemma_mul_is_associative(r0, b0, pow(b0, (k0 - 1) as nat));
                    lemma_mul_mod_noop_left(r0 * b0, pow(b0, (k0 - 1) as nat), p());
                }
            }
            let ghost r1 = res.val();
            let ghost k1: nat = if k0 % 2 == 1 { (k0 - 1) as nat } else { k0 };
            assert((r1 * pow(b0, k1)) % p() == pow(self.val(), e as nat) % p());
            base = base.square();
            k = k / 2;
            proof {
                // b0^k1 == (b0 * b0)^(k1 / 2) and (b0*b0) % p == base
                assert(k1 == 2 * (k as nat));
                lemma_pow_multiplies(b0, 2, k as nat);
                lemma_square_is_pow2(b0);
                lemma_pow_mod_noop(b0 * b0, k as nat, p());
                lemma_mul_mod_noop_right(r1, pow(b0 * b0, k as nat), p());
                lemma_mul_mod_noop_right(r1, pow((b0 * b0) % p(), k as nat), p());
            }
        }
        proof {
            lemma_pow0(base.val());
            lemma_mod_twice(pow(self.val(), e as nat), p());
        }
        res
    }

    /// The multiplicative inverse, when one exists (extended Euclid).
    pub fn inverse(self) -> (r: Option<FpBabyBear>)
        ensures
            r is Some <==> is_invertible(self.val()),
            r matches Some(x) ==> (self.val() * x.val()) % p() == 1 && x.val() == inv_spec(
                self.val(),
            ),
    {
        let a: u64 = self.value();
        let mut r0: u64 = MODULUS;
        let mut r1: u64 = a;
        let mut t0: u64 = 0;
        let mut t1: u64 = 1;
        proof {
            lemma_small_mod(1nat, p() as nat);
            lemma_small_mod(a as nat, p() as nat);
            lemma_mod_self_0(p());
            assert((0 * (a as int)) % p() == 0);
            assert((1 * (a as int)) % p() == (a as int) % p());
        }
        while r1 != 0
            invariant
                a < MODULUS,
                a == self.val(),
                0 <= r1 < r0 <= MODULUS,
                t0 < MODULUS,
                t1 < MODULUS,
                (t0 * a) as int % p() == r0 as int % p(),
                (t1 * a) as int % p() == r1 as int % p(),
                forall|d: int|
                    d > 0 && #[trigger] ((r0 as int) % d) == 0 && (r1 as int) % d == 0 ==> p() % d == 0
                        && (a as int) % d == 0,
            decreases r1,
        {
            let q: u64 = r0 / r1;
            let rem: u64 = r0 % r1;
            proof {
                lemma_fundamental_div_mod(r0 as int, r1 as int);
                lemma_mul_upper_bound(q as int, p(), t1 as int, p());
                lemma_mul_inequality(q as int, r0 as int, r1 as int);
                lemma_mul_is_commutative(q as int, r1 as int);
            }
            let qt: u64 = (q * t1) % MODULUS;
            let t2: u64 = (t0 + MODULUS - qt) % MODULUS;
            proof {
                // t2 * a == t0 * a - q * (t1 * a) == r0 - q * r1 == rem   (mod p)
                let ai = a as int;
                let t0i = t0 as int;
                let t1i = t1 as int;
                let qi = q as int;
                lemma_mod_add_multiples_vanish(t0i - qt as int, p());
                assert(t2 as int == (t0i - qt as int) % p());
                lemma_mul_mod_noop_left(t0i - qt as int, ai, p());
                lemma_mul_is_distributive_sub_other_way(ai, t0i, qt as int);
                lemma_sub_mod_noop(t0i * ai, (qt as int) * ai, p());
                lemma_mul_mod_noop_left(qi * t1i, ai, p());
                lemma_mul_is_associative(qi, t1i, ai);
                lemma_mul_mod_noop_right(qi, t1i * ai, p());
                lemma_mul_mod_noop_right(qi, r1 as int, p());
                lemma_sub_mod_noop(t0i * ai, qi * (t1i * ai), p());
                lemma_mod_twice(t0i * ai, p());
                lemma_sub_mod_noop(r0 as int, qi * (r1 as int), p());
                lemma_mod_twice(r0 as int, p());
                assert((t2 as int * ai) % p() == (t0i * ai - (qt as int) * ai) % p());
                assert(((t0i * ai) % p() - ((qt as int) * ai) % p()) % p() == (t0i * ai
                    - (qt as int) * ai) % p());
                assert(((qt as int) * ai) % p() == (qi * t1i * ai) % p());
                assert((qi * t1i * ai) % p() == (qi * (t1i * ai)) % p());
                assert((qi * (t1i * ai)) % p() == (qi * ((t1i * ai) % p())) % p());
                assert((qi * ((r1 as int) % p())) % p() == (qi * (r1 as int)) % p());
                assert((r0 as int - qi * (r1 as int)) == rem as int);
                assert((t2 as int * ai) % p() == (rem as int) % p());
                assert forall|d: int|
                    d > 0 && #[trigger] ((r1 as int) % d) == 0 && (rem as int) % d
                        == 0 implies p() % d == 0 && (ai % d) == 0 by {
                    lemma_mul_mod_noop_right(qi, r1 as int, d);
                    lemma_mul_is_commutative(qi, r1 as int);
                    lemma_add_mod_noop(qi * (r1 as int), rem as int, d);
                    lemma_small_mod(0nat, d as nat);
                    assert((qi * 0) == 0);
                    assert((r0 as int) % d == 0);
                }
            }
            r0 = r1;
            r1 = rem;
            t0 = t1;
            t1 = t2;
        }
        proof {
            lemma_mod_self_0(r0 as int);
            lemma_small_mod(0nat, r0 as nat);
        }
        if r0 == 1 {
            proof {
                lemma_small_mod(1nat, p() as nat);
                lemma_mul_is_commutative(t0 as int, a as int);
                Self::lemma_canonical(t0);
                assert(((a as int) * (t0 as int)) % p() == 1);
                assert(is_invertible(self.val()));
                lemma_small_mod(a as nat, p() as nat);
                lemma_inverse_unique(a as int, t0 as int, inv_residue(a as int));
            }
            Some(FpBabyBear { v: t0 as u32 })
        } else {
            proof {
                let g = r0 as int;
                assert(g > 1);
                assert(p() % g == 0 && (a as int) % g == 0);
                if is_invertible(self.val()) {
                    let x = choose|x: int| 0 <= x < p() && #[trigger] ((a * x) % p()) == 1;
                    let ax = (a as int) * x;
                    lemma_fundamental_div_mod(ax, p());
                    // g | a*x and g | (ax / p) * p, hence g | 1
                    lemma_mul_mod_noop_left(a as int, x, g);
                    lemma_small_mod(0nat, g as nat);
                    let k = ax / p();
                    lemma_mul_mod_noop_right(k, p(), g);
                    lemma_mul_is_commutative(p(), k);
                    lemma_mul_mod_noop_left(p(), k, g);
                    assert((0 * x) == 0);
                    assert((k * 0) == 0);
                    assert(ax == p() * k + 1);
                    lemma_mod_sub_multiples_vanish(1, g);
                    lemma_sub_mod_noop(ax, p() * k, g);
                    lemma_small_mod(1nat, g as nat);
                    assert(false);
                }
            }
            None
        }
    }

    /// The field element whose value is the little-endian integer of `bytes`, reduced mod p.
    pub fn from_le_bytes_mod_order(bytes: &[u8]) -> (r: FpBabyBear)
        ensures
            r.val() == le_bytes_value(bytes@) as int % p(),
    {
        let n: usize = bytes.len();
        let mut acc: FpBabyBear = FpBabyBear::zero();
        let mut i: usize = n;
        let base: FpBabyBear = FpBabyBear::from_u64(256);
        proof {
            assert(bytes@.subrange(n as int, n as int).len() == 0);
            lemma_small_mod(256, p() as nat);
        }
        while i > 0
            invariant
                n == bytes@.len(),
                i <= n,
                base.val() == 256,
                acc.val() == le_bytes_value(bytes@.subrange(i as int, n as int)) as int % p(),
            decreases i,
        {
            i = i - 1;
            let b: FpBabyBear = FpBabyBear::from_u64(bytes[i] as u64);
            let ghost old_acc = acc.val();
            acc = acc.mul(base).add(b);
            proof {
                let tail = bytes@.subrange(i + 1, n as int);
                let s = bytes@.subrange(i as int, n as int);
                assert(s.drop_first() =~= tail);
                let t = le_bytes_value(tail) as int;
                lemma_small_mod(bytes[i as int] as nat, p() as nat);
                lemma_mul_mod_noop_left(t, 256, p());
                lemma_mul_is_commutative(t, 256);
                lemma_add_mod_noop(t * 256, bytes[i as int] as int, p());
                lemma_mod_twice(t * 256, p());
                assert(acc.val() == ((old_acc * 256) % p() + (bytes[i as int] as int)) % p());
            }
        }
        proof {
            assert(bytes@.subrange(0, n as int) =~= bytes@);
        }
        acc
    }

    /// The eight little-endian bytes of the canonical representative.
    pub fn to_bytes_le(&self) -> (r: Vec<u8>)
        ensures
            r@.len() == 8,
            forall|k: int| 0 <= k < 8 ==> #[trigger] r@[k] == byte_of(self.val(), k as nat),
    {
        let mut out: Vec<u8> = Vec::new();
        let mut x: u64 = self.value();
        let mut k: usize = 0;
        proof {
            lemma_pow0(256);
        }
        while k < 8
            invariant
                k <= 8,
                out@.len() == k,
                x as int == self.val() / pow(256, k as nat),
                forall|j: int| 0 <= j < k ==> #[trigger] out@[j] == byte_of(self.val(), j as nat),
            decreases 8 - k,
        {
            let b: u8 = (x % 256) as u8;
            out.push(b);
            proof {
                lemma_pow_positive(256, k as nat);
                lemma_pow_adds(256, k as nat, 1);
                lemma_pow1(256);
                lemma_div_denominator(self.val(), pow(256, k as nat), 256);
            }
            x = x / 256;
            k = k + 1;
        }
        out
    }

    /// A primitive `n`-th root of unity, for `n` a power of two no larger than 2^27.
    pub fn get_root_of_unity(n: u64) -> (r: Option<FpBabyBear>)
        ensures
            r is Some <==> (exists|k: nat| k <= 27 && pow2(k) == n),
            forall|k: nat|
                k <= 27 && pow2(k) == n ==> (r matches Some(w) && w.val() == root_of_unity_spec(
                    k,
                )),
    {
        let mut k: u32 = 0;
        let mut m: u64 = 1;
        proof {
            lemma2_to64();
        }
        while m < n && k < 27
            invariant
                k <= 27,
                m == pow2(k as nat),
                forall|j: nat| j < k ==> pow2(j) < n,
            decreases 27 - k,
        {
            proof {
                lemma2_to64();
                lemma_pow2_unfold((k + 1) as nat);
                lemma_pow2_strictly_increases(k as nat, 27);
            }
            m = m * 2;
            k = k + 1;
        }
        proof {
            lemma_pow2_strictly_increases(k as nat, 28);
        }
        if m != n {
            proof {
                assert forall|j: nat| j <= 27 && pow2(j) == n implies false by {
                    if j < k {
                    } else if j == k {
                    } else {
                        lemma_pow2_strictly_increases(k as nat, j);
                        if k < 27 {
                        } else {
                        }
                    }
                }
            }
            return None;
        }
        let mut omega: FpBabyBear = FpBabyBear::from_u64(TWO_ADIC_ROOT_OF_UNITY);
        let mut j: u32 = k;
        proof {
            lemma_pow2(0);
            lemma_pow1(TWO_ADIC_ROOT_OF_UNITY as int);
            assert(pow2((27 - k + (k - j)) as nat) == pow2((27 - k) as nat));
        }
        while j < 27
            invariant
                k <= j <= 27,
                omega.val() == pow(TWO_ADIC_ROOT_OF_UNITY as int, pow2((j - k) as nat)) % p(),
            decreases 27 - j,
        {
            let ghost o = omega.val();
            omega = omega.square();
            proof {
                let e = pow2((j - k) as nat);
                let g = TWO_ADIC_ROOT_OF_UNITY as int;
                lemma_mul_mod_noop(pow(g, e), pow(g, e), p());
                lemma_pow_adds(g, e, e);
                lemma_pow2_unfold((j + 1 - k) as nat);
                assert(e + e == pow2((j + 1 - k) as nat));
            }
            j = j + 1;
        }
        proof {
            assert forall|k2: nat| k2 <= 27 && pow2(k2) == n implies k2 == k by {
                if k2 < k {
                    lemma_pow2_strictly_increases(k2, k as nat);
                } else if k2 > k {
                    lemma_pow2_strictly_increases(k as nat, k2);
                }
            }
        }
        Some(omega)
    }
}

impl PartialEq for FpBabyBear {
    fn eq(&self, other: &Self) -> (r: bool) {
        self.value() == other.value()
    }
}

impl PartialEqSpecImpl for FpBabyBear {
    open spec fn obeys_eq_spec() -> bool {
        true
    }

    open spec fn eq_spec(&self, other: &Self) -> bool {
        self.val() == other.val()
    }
}

impl Eq for FpBabyBear {

}

} // verus!
