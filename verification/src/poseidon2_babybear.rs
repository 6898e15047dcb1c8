//! The diagonals of the internal matrices of the BabyBear Poseidon2 instances of widths
//! 16 and 24, and the proof that those matrices are invertible, so that the BabyBear
//! permutations are injective.
use crate::fft_laws::fsum;
use crate::field_babybear::{inv_residue, inv_spec, is_invertible, lemma_inverse_unique, p, vals, FpBabyBear};
use crate::poseidon2::{permutation_spec, Poseidon2Params};
use crate::poseidon2_laws::{internal_invertible, lemma_permutation_injective};
use vstd::arithmetic::div_mod::*;
use vstd::prelude::*;

verus! {

/// `x` is the inverse of `a`, a field value.
proof fn lemma_inverse_pair(a: int, x: int)
    requires
        0 <= a < p(),
        0 <= x < p(),
        (a * x) % p() == 1,
    ensures
        is_invertible(a),
        inv_spec(a) == x,
{
    lemma_small_mod(a as nat, p() as nat);
    assert(is_invertible(a));
    let y = inv_residue(a);
    lemma_inverse_unique(a, x, y);
}

/// The internal diagonal (minus one) of the BabyBear instance of width 16.
pub open spec fn babybear_diag16() -> Seq<int> {
    seq![
        174271892,
        1840666551,
        1459346590,
        86719882,
        863261185,
        1543704716,
        199992187,
        629943947,
        302161721,
        1766394318,
        1831016228,
        566473250,
        1007223973,
        30846170,
        661675139,
        1378994178,
    ]
}

/// The internal diagonal (minus one) of the BabyBear instance of width 16, as field
/// elements.
pub fn babybear_diag16_elements() -> (r: Vec<FpBabyBear>)
    ensures
        vals(r@) == babybear_diag16(),
{
    let e0: FpBabyBear = FpBabyBear::from_u64(174271892);
    let e1: FpBabyBear = FpBabyBear::from_u64(1840666551);
    let e2: FpBabyBear = FpBabyBear::from_u64(1459346590);
    let e3: FpBabyBear = FpBabyBear::from_u64(86719882);
    let e4: FpBabyBear = FpBabyBear::from_u64(863261185);
    let e5: FpBabyBear = FpBabyBear::from_u64(1543704716);
    let e6: FpBabyBear = FpBabyBear::from_u64(199992187);
    let e7: FpBabyBear = FpBabyBear::from_u64(629943947);
    let e8: FpBabyBear = FpBabyBear::from_u64(302161721);
    let e9: FpBabyBear = FpBabyBear::from_u64(1766394318);
    let e10: FpBabyBear = FpBabyBear::from_u64(1831016228);
    let e11: FpBabyBear = FpBabyBear::from_u64(566473250);
    let e12: FpBabyBear = FpBabyBear::from_u64(1007223973);
    let e13: FpBabyBear = FpBabyBear::from_u64(30846170);
    let e14: FpBabyBear = FpBabyBear::from_u64(661675139);
    let e15: FpBabyBear = FpBabyBear::from_u64(1378994178);
    proof {
        lemma_small_mod(174271892, p() as nat);
        lemma_small_mod(1840666551, p() as nat);
        lemma_small_mod(1459346590, p() as nat);
        lemma_small_mod(86719882, p() as nat);
        lemma_small_mod(863261185, p() as nat);
        lemma_small_mod(1543704716, p() as nat);
        lemma_small_mod(199992187, p() as nat);
        lemma_small_mod(629943947, p() as nat);
        lemma_small_mod(302161721, p() as nat);
        lemma_small_mod(1766394318, p() as nat);
        lemma_small_mod(1831016228, p() as nat);
        lemma_small_mod(566473250, p() as nat);
        lemma_small_mod(1007223973, p() as nat);
        lemma_small_mod(30846170, p() as nat);
        lemma_small_mod(661675139, p() as nat);
        lemma_small_mod(1378994178, p() as nat);
    }
    let r: Vec<FpBabyBear> = vec![e0, e1, e2, e3, e4, e5, e6, e7, e8, e9, e10, e11, e12, e13, e14, e15];
    proof {
        assert(vals(r@) =~= babybear_diag16());
    }
    r
}

/// The internal matrix of the BabyBear instance of width 16 is invertible.
pub proof fn lemma_babybear_diag16_invertible()
    ensures
        internal_invertible(16, babybear_diag16()),
{
    let d = babybear_diag16();
    lemma_inverse_pair(174271892, 609918926);
    lemma_inverse_pair(1840666551, 708994023);
    lemma_inverse_pair(1459346590, 930450411);
    lemma_inverse_pair(86719882, 696405486);
    lemma_inverse_pair(863261185, 1840666314);
    lemma_inverse_pair(1543704716, 454166394);
    lemma_inverse_pair(199992187, 1660492356);
    lemma_inverse_pair(629943947, 1998993670);
    lemma_inverse_pair(302161721, 492432365);
    lemma_inverse_pair(1766394318, 1269928891);
    lemma_inverse_pair(1831016228, 1293997417);
    lemma_inverse_pair(566473250, 1884957318);
    lemma_inverse_pair(1007223973, 1353753031);
    lemma_inverse_pair(30846170, 1038391295);
    lemma_inverse_pair(661675139, 1881448618);
    lemma_inverse_pair(1378994178, 1464611195);
    assert(d.len() == 16);
    let f = |i: int| inv_spec(d[i]);
    assert(f(0) == 609918926);
    assert(f(1) == 708994023);
    assert(f(2) == 930450411);
    assert(f(3) == 696405486);
    assert(f(4) == 1840666314);
    assert(f(5) == 454166394);
    assert(f(6) == 1660492356);
    assert(f(7) == 1998993670);
    assert(f(8) == 492432365);
    assert(f(9) == 1269928891);
    assert(f(10) == 1293997417);
    assert(f(11) == 1884957318);
    assert(f(12) == 1353753031);
    assert(f(13) == 1038391295);
    assert(f(14) == 1881448618);
    assert(f(15) == 1464611195);
    reveal_with_fuel(fsum, 17);
    assert(fsum(16, f) == 19579607710);
    assert((19579607711int * 632837115int) % p() == 1);
    assert(is_invertible(19579607711int));
}

/// The internal diagonal (minus one) of the BabyBear instance of width 24.
pub open spec fn babybear_diag24() -> Seq<int> {
    seq![
        1083257840,
        375892129,
        111593398,
        1867716110,
        658182609,
        51866717,
        1928969209,
        1942928017,
        1558116381,
        20525701,
        1188752902,
        106789798,
        1389833583,
        98371040,
        1001081699,
        1792686146,
        801504236,
        1997365680,
        1461037801,
        65998480,
        1974912880,
        606789471,
        13683276,
        918610824,
    ]
}

/// The internal diagonal (minus one) of the BabyBear instance of width 24, as field
/// elements.
pub fn babybear_diag24_elements() -> (r: Vec<FpBabyBear>)
    ensures
        vals(r@) == babybear_diag24(),
{
    let e0: FpBabyBear = FpBabyBear::from_u64(1083257840);
    let e1: FpBabyBear = FpBabyBear::from_u64(375892129);
    let e2: FpBabyBear = FpBabyBear::from_u64(111593398);
    let e3: FpBabyBear = FpBabyBear::from_u64(1867716110);
    let e4: FpBabyBear = FpBabyBear::from_u64(658182609);
    let e5: FpBabyBear = FpBabyBear::from_u64(51866717);
    let e6: FpBabyBear = FpBabyBear::from_u64(1928969209);
    let e7: FpBabyBear = FpBabyBear::from_u64(1942928017);
    let e8: FpBabyBear = FpBabyBear::from_u64(1558116381);
    let e9: FpBabyBear = FpBabyBear::from_u64(20525701);
    let e10: FpBabyBear = FpBabyBear::from_u64(1188752902);
    let e11: FpBabyBear = FpBabyBear::from_u64(106789798);
    let e12: FpBabyBear = FpBabyBear::from_u64(1389833583);
    let e13: FpBabyBear = FpBabyBear::from_u64(98371040);
    let e14: FpBabyBear = FpBabyBear::from_u64(1001081699);
    let e15: FpBabyBear = FpBabyBear::from_u64(1792686146);
    let e16: FpBabyBear = FpBabyBear::from_u64(801504236);
    let e17: FpBabyBear = FpBabyBear::from_u64(1997365680);
    let e18: FpBabyBear = FpBabyBear::from_u64(1461037801);
    let e19: FpBabyBear = FpBabyBear::from_u64(65998480);
    let e20: FpBabyBear = FpBabyBear::from_u64(1974912880);
    let e21: FpBabyBear = FpBabyBear::from_u64(606789471);
    let e22: FpBabyBear = FpBabyBear::from_u64(13683276);
    let e23: FpBabyBear = FpBabyBear::from_u64(918610824);
    proof {
        lemma_small_mod(1083257840, p() as nat);
        lemma_small_mod(375892129, p() as nat);
        lemma_small_mod(111593398, p() as nat);
        lemma_small_mod(1867716110, p() as nat);
        lemma_small_mod(658182609, p() as nat);
        lemma_small_mod(51866717, p() as nat);
        lemma_small_mod(1928969209, p() as nat);
        lemma_small_mod(1942928017, p() as nat);
        lemma_small_mod(1558116381, p() as nat);
        lemma_small_mod(20525701, p() as nat);
        lemma_small_mod(1188752902, p() as nat);
        lemma_small_mod(106789798, p() as nat);
        lemma_small_mod(1389833583, p() as nat);
        lemma_small_mod(98371040, p() as nat);
        lemma_small_mod(1001081699, p() as nat);
        lemma_small_mod(1792686146, p() as nat);
        lemma_small_mod(801504236, p() as nat);
        lemma_small_mod(1997365680, p() as nat);
        lemma_small_mod(1461037801, p() as nat);
        lemma_small_mod(65998480, p() as nat);
        lemma_small_mod(1974912880, p() as nat);
        lemma_small_mod(606789471, p() as nat);
        lemma_small_mod(13683276, p() as nat);
        lemma_small_mod(918610824, p() as nat);
    }
    let r: Vec<FpBabyBear> = vec![e0, e1, e2, e3, e4, e5, e6, e7, e8, e9, e10, e11, e12, e13, e14, e15, e16, e17, e18, e19, e20, e21, e22, e23];
    proof {
        assert(vals(r@) =~= babybear_diag24());
    }
    r
}

/// The internal matrix of the BabyBear instance of width 24 is invertible.
pub proof fn lemma_babybear_diag24_invertible()
    ensures
        internal_invertible(24, babybear_diag24()),
{
    let d = babybear_diag24();
    lemma_inverse_pair(1083257840, 43705162);
    lemma_inverse_pair(375892129, 924797003);
    lemma_inverse_pair(111593398, 990482726);
    lemma_inverse_pair(1867716110, 1694794586);
    lemma_inverse_pair(658182609, 23444731);
    lemma_inverse_pair(51866717, 1886478229);
    lemma_inverse_pair(1928969209, 1081791061);
    lemma_inverse_pair(1942928017, 563932331);
    lemma_inverse_pair(1558116381, 414848917);
    lemma_inverse_pair(20525701, 11468505);
    lemma_inverse_pair(1188752902, 494775741);
    lemma_inverse_pair(106789798, 1605169737);
    lemma_inverse_pair(1389833583, 171321002);
    lemma_inverse_pair(98371040, 837375491);
    lemma_inverse_pair(1001081699, 1366335515);
    lemma_inverse_pair(1792686146, 103669254);
    lemma_inverse_pair(801504236, 1737042853);
    lemma_inverse_pair(1997365680, 928767156);
    lemma_inverse_pair(1461037801, 1505013840);
    lemma_inverse_pair(65998480, 269273777);
    lemma_inverse_pair(1974912880, 1505843032);
    lemma_inverse_pair(606789471, 100101);
    lemma_inverse_pair(13683276, 1973520354);
    lemma_inverse_pair(918610824, 317103186);
    assert(d.len() == 24);
    let f = |i: int| inv_spec(d[i]);
    assert(f(0) == 43705162);
    assert(f(1) == 924797003);
    assert(f(2) == 990482726);
    assert(f(3) == 1694794586);
    assert(f(4) == 23444731);
    assert(f(5) == 1886478229);
    assert(f(6) == 1081791061);
    assert(f(7) == 563932331);
    assert(f(8) == 414848917);
    assert(f(9) == 11468505);
    assert(f(10) == 494775741);
    assert(f(11) == 1605169737);
    assert(f(12) == 171321002);
    assert(f(13) == 837375491);
    assert(f(14) == 1366335515);
    assert(f(15) == 103669254);
    assert(f(16) == 1737042853);
    assert(f(17) == 928767156);
    assert(f(18) == 1505013840);
    assert(f(19) == 269273777);
    assert(f(20) == 1505843032);
    assert(f(21) == 100101);
    assert(f(22) == 1973520354);
    assert(f(23) == 317103186);
    reveal_with_fuel(fsum, 25);
    assert(fsum(24, f) == 20451054290);
    assert((20451054291int * 320440572int) % p() == 1);
    assert(is_invertible(20451054291int));
}

/// The BabyBear Poseidon2 permutations of widths 16 and 24 (S-box `x^7` and the
/// internal diagonals above) are injective: two states with the same image are the same.
pub proof fn lemma_babybear_permutation_injective(
    pp: Poseidon2Params,
    x: Seq<FpBabyBear>,
    x2: Seq<FpBabyBear>,
)
    requires
        pp.wf(),
        pp.d == 7,
        (pp.t == 16 && vals(pp.mat_internal_diag_m_1@) == babybear_diag16()) || (pp.t == 24
            && vals(pp.mat_internal_diag_m_1@) == babybear_diag24()),
        x.len() == pp.t,
        x2.len() == pp.t,
        permutation_spec(pp, vals(x)) == permutation_spec(pp, vals(x2)),
    ensures
        vals(x) == vals(x2),
{
    if pp.t == 16 {
        lemma_babybear_diag16_invertible();
    } else {
        lemma_babybear_diag24_invertible();
    }
    lemma_permutation_injective(pp, x, x2);
}

} // verus!
