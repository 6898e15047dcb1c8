//! The Poseidon2 permutation over BabyBear and the hash built from it.
use crate::fft_laws::fsum;
use crate::field_babybear::{byte_of, lemma_vals_push, p, vals, FpBabyBear};
use crate::merkle_tree_fp::Hasher;
use crate::poly::copy_poly;
use std::sync::Arc;
use vstd::arithmetic::div_mod::*;
use vstd::arithmetic::mul::*;
use vstd::arithmetic::power::*;
use vstd::prelude::*;

verus! {

broadcast use FpBabyBear::lemma_val_range;

/// The parameters of a Poseidon2 instance.
#[derive(Debug)]
pub struct Poseidon2Params {
    /// State width.
    pub t: usize,
    /// S-box degree.
    pub d: usize,
    pub rounds_f_beginning: usize,
    pub rounds_p: usize,
    pub rounds_f_end: usize,
    pub rounds: usize,
    /// The diagonal of the internal matrix, minus one.
    pub mat_internal_diag_m_1: Vec<FpBabyBear>,
    pub mat_internal: Vec<Vec<FpBabyBear>>,
    pub round_constants: Vec<Vec<FpBabyBear>>,
}

/// A state width that the linear layers support.
pub open spec fn supported_width(t: int) -> bool {
    t == 2 || t == 3 || t == 4 || t == 8 || t == 12 || t == 16 || t == 20 || t == 24
}

impl Poseidon2Params {
    /// The parameters with which the permutation runs without failing.
    pub open spec fn wf(&self) -> bool {
        &&& supported_width(self.t as int)
        &&& (self.d == 3 || self.d == 5 || self.d == 7)
        &&& self.rounds_f_beginning + self.rounds_p <= self.rounds
        &&& self.round_constants@.len() >= self.rounds
        &&& forall|r: int|
            0 <= r < self.rounds ==> #[trigger] self.round_constants@[r]@.len() >= (if r
                < self.rounds_f_beginning || r >= self.rounds_f_beginning + self.rounds_p {
                self.t as int
            } else {
                1
            })
        &&& self.t >= 4 ==> self.mat_internal_diag_m_1@.len() >= self.t
    }

    /// Whether the permutation can run with these parameters (what `Poseidon2::new` asks).
    pub fn is_well_formed(&self) -> (r: bool)
        ensures
            r == self.wf(),
    {
        let t: usize = self.t;
        if !(t == 2 || t == 3 || t == 4 || t == 8 || t == 12 || t == 16 || t == 20 || t == 24) {
            return false;
        }
        if !(self.d == 3 || self.d == 5 || self.d == 7) {
            return false;
        }
        if self.rounds_p > self.rounds || self.rounds_f_beginning > self.rounds - self.rounds_p {
            return false;
        }
        if self.round_constants.len() < self.rounds {
            return false;
        }
        let p_end: usize = self.rounds_f_beginning + self.rounds_p;
        let mut r: usize = 0;
        while r < self.rounds
            invariant
                t == self.t,
                p_end == self.rounds_f_beginning + self.rounds_p,
                self.round_constants@.len() >= self.rounds,
                r <= self.rounds,
                forall|k: int|
                    0 <= k < r ==> #[trigger] self.round_constants@[k]@.len() >= (if k
                        < self.rounds_f_beginning || k >= self.rounds_f_beginning + self.rounds_p {
                        self.t as int
                    } else {
                        1
                    }),
            decreases self.rounds - r,
        {
            let need: usize = if r < self.rounds_f_beginning || r >= p_end {
                t
            } else {
                1
            };
            if self.round_constants[r].len() < need {
                return false;
            }
            r = r + 1;
        }
        if t >= 4 && self.mat_internal_diag_m_1.len() < t {
            return false;
        }
        true
    }

    /// The round constants of round `r`, as values.
    pub open spec fn rc(&self, r: int) -> Seq<int> {
        vals(self.round_constants@[r]@)
    }

    /// Collects the parameters; the number of full rounds is split evenly between the
    /// beginning and the end.
    pub fn new(
        t: usize,
        d: usize,
        rounds_f: usize,
        rounds_p: usize,
        mat_internal_diag_m_1: &[FpBabyBear],
        mat_internal: &[Vec<FpBabyBear>],
        round_constants: &[Vec<FpBabyBear>],
    ) -> (r: Self)
        requires
            d == 3 || d == 5 || d == 7 || d == 11,
            rounds_f % 2 == 0,
            rounds_f + rounds_p <= usize::MAX,
        ensures
            r.t == t,
            r.d == d,
            r.rounds_f_beginning == rounds_f / 2,
            r.rounds_p == rounds_p,
            r.rounds_f_end == rounds_f / 2,
            r.rounds == rounds_f + rounds_p,
            r.mat_internal_diag_m_1@ == mat_internal_diag_m_1@,
            r.mat_internal@.len() == mat_internal@.len(),
            forall|i: int|
                0 <= i < mat_internal@.len() ==> #[trigger] r.mat_internal@[i]@ == mat_internal@[i]@,
            r.round_constants@.len() == round_constants@.len(),
            forall|i: int|
                0 <= i < round_constants@.len() ==> #[trigger] r.round_constants@[i]@
                    == round_constants@[i]@,
    {
        let r: usize = rounds_f / 2;
        let rounds: usize = rounds_f + rounds_p;
        Poseidon2Params {
            t,
            d,
            rounds_f_beginning: r,
            rounds_p,
            rounds_f_end: r,
            rounds,
            mat_internal_diag_m_1: copy_poly(mat_internal_diag_m_1),
            mat_internal: copy_rows(mat_internal),
            round_constants: copy_rows(round_constants),
        }
    }
}

/// A copy of a matrix given by rows.
fn copy_rows(m: &[Vec<FpBabyBear>]) -> (r: Vec<Vec<FpBabyBear>>)
    ensures
        r@.len() == m@.len(),
        forall|i: int| 0 <= i < m@.len() ==> #[trigger] r@[i]@ == m@[i]@,
{
    let mut r: Vec<Vec<FpBabyBear>> = Vec::new();
    let mut i: usize = 0;
    while i < m.len()
        invariant
            i <= m@.len(),
            r@.len() == i,
            forall|j: int| 0 <= j < i ==> #[trigger] r@[j]@ == m@[j]@,
        decreases m@.len() - i,
    {
        r.push(copy_poly(m[i].as_slice()));
        i = i + 1;
    }
    r
}

/// `x^d` in the field.
pub open spec fn sbox_spec(d: int, x: int) -> int {
    pow(x, d as nat) % p()
}

/// Adds the round constants; as long as the shorter of the two.
pub open spec fn add_rc_spec(state: Seq<int>, rc: Seq<int>) -> Seq<int> {
    Seq::new(
        if state.len() <= rc.len() {
            state.len()
        } else {
            rc.len()
        },
        |i: int| (state[i] + rc[i]) % p(),
    )
}

/// The S-box applied to every element.
pub open spec fn sbox_all_spec(d: int, state: Seq<int>) -> Seq<int> {
    state.map_values(|x: int| sbox_spec(d, x))
}

/// Row `j` of the 4x4 matrix [[5,7,1,3],[4,6,1,1],[1,3,5,7],[1,1,4,6]] applied to the
/// block of four that holds `j`.
pub open spec fn m4_row(x: Seq<int>, j: int) -> int {
    let b = j - j % 4;
    let a0 = x[b];
    let a1 = x[b + 1];
    let a2 = x[b + 2];
    let a3 = x[b + 3];
    if j % 4 == 0 {
        (5 * a0 + 7 * a1 + a2 + 3 * a3) % p()
    } else if j % 4 == 1 {
        (4 * a0 + 6 * a1 + a2 + a3) % p()
    } else if j % 4 == 2 {
        (a0 + 3 * a1 + 5 * a2 + 7 * a3) % p()
    } else {
        (a0 + a1 + 4 * a2 + 6 * a3) % p()
    }
}

/// The 4x4 matrix applied to each of the first `t4` blocks of four.
pub open spec fn m4_spec(x: Seq<int>, t4: int) -> Seq<int> {
    Seq::new(
        x.len(),
        |j: int|
            if j < 4 * t4 {
                m4_row(x, j)
            } else {
                x[j]
            },
    )
}

/// The sum of the elements at positions `l`, `4 + l`, `8 + l`, ... in the first `t4` blocks.
pub open spec fn column_sum(y: Seq<int>, t4: int, l: int) -> int {
    fsum(t4 as nat, |j: int| y[4 * j + l]) % p()
}

/// The external linear layer for state width `t`.
pub open spec fn external_spec(t: int, x: Seq<int>) -> Seq<int> {
    if t == 2 {
        seq![(2 * x[0] + x[1]) % p(), (x[0] + 2 * x[1]) % p()]
    } else if t == 3 {
        Seq::new(x.len(), |i: int| (x[i] + x[0] + x[1] + x[2]) % p())
    } else if t == 4 {
        m4_spec(x, 1)
    } else {
        let y = m4_spec(x, t / 4);
        Seq::new(x.len(), |i: int| (y[i] + column_sum(y, t / 4, i % 4)) % p())
    }
}

/// The internal linear layer for state width `t`.
pub open spec fn internal_spec(t: int, x: Seq<int>, diag: Seq<int>) -> Seq<int> {
    if t == 2 {
        seq![(2 * x[0] + x[1]) % p(), (x[0] + 3 * x[1]) % p()]
    } else if t == 3 {
        seq![
            (2 * x[0] + x[1] + x[2]) % p(),
            (x[0] + 2 * x[1] + x[2]) % p(),
            (x[0] + x[1] + 3 * x[2]) % p(),
        ]
    } else {
        Seq::new(x.len(), |i: int| (x[i] * diag[i] + fsum(t as nat, |k: int| x[k])) % p())
    }
}

/// Round `r` of the permutation.
pub open spec fn round_spec(pp: Poseidon2Params, state: Seq<int>, r: int) -> Seq<int> {
    if r < pp.rounds_f_beginning || r >= pp.rounds_f_beginning + pp.rounds_p {
        external_spec(pp.t as int, sbox_all_spec(pp.d as int, add_rc_spec(state, pp.rc(r))))
    } else {
        internal_spec(
            pp.t as int,
            state.update(0, sbox_spec(pp.d as int, (state[0] + pp.rc(r)[0]) % p())),
            vals(pp.mat_internal_diag_m_1@),
        )
    }
}

/// The first `n` rounds applied to `state`.
pub open spec fn rounds_spec(pp: Poseidon2Params, state: Seq<int>, n: nat) -> Seq<int>
    decreases n,
{
    if n == 0 {
        state
    } else {
        round_spec(pp, rounds_spec(pp, state, (n - 1) as nat), n - 1)
    }
}

/// The Poseidon2 permutation: the external layer, then all rounds.
pub open spec fn permutation_spec(pp: Poseidon2Params, input: Seq<int>) -> Seq<int> {
    rounds_spec(pp, external_spec(pp.t as int, input), pp.rounds as nat)
}

/// The state that hashing starts from: the input cut or padded with zeros to width `t`.
pub open spec fn hash_input_state(t: int, input: Seq<int>) -> Seq<int> {
    Seq::new(
        t as nat,
        |i: int|
            if i < input.len() {
                input[i]
            } else {
                0
            },
    )
}

/// The hash of `input`: the permutation of the input padded (or cut) to the width,
/// then the eight little-endian bytes of each of the first four state elements.
pub open spec fn hash_spec(pp: Poseidon2Params, input: Seq<int>) -> Seq<u8> {
    let out = permutation_spec(pp, hash_input_state(pp.t as int, input));
    Seq::new(
        32,
        |k: int|
            if k / 8 < pp.t {
                byte_of(out[k / 8], (k % 8) as nat)
            } else {
                0u8
            },
    )
}

#[verifier::external_body]
/// `Arc::clone`: another pointer to the same allocation, so the same value.
fn arc_clone<T>(a: &Arc<T>) -> (r: Arc<T>)
    ensures
        *r == **a,
{
    Arc::clone(a)
}

/// A Poseidon2 instance.
#[derive(Debug)]
pub struct Poseidon2 {
    params: Arc<Poseidon2Params>,
}

impl Clone for Poseidon2 {
    fn clone(&self) -> (r: Self)
        ensures
            r.spec_params() == self.spec_params(),
    {
        proof {
            use_type_invariant(self);
        }
        Poseidon2 { params: arc_clone(&self.params) }
    }
}

proof fn lemma_add2(a: int, b: int)
    ensures
        (a % p() + b % p()) % p() == (a + b) % p(),
{
    lemma_add_mod_noop(a, b, p());
}

proof fn lemma_dbl(a: int)
    ensures
        (2 * (a % p())) % p() == (2 * a) % p(),
{
    lemma_mul_mod_noop_right(2, a, p());
}

/// The 4x4 matrix applied to one block.
fn m4_block(a0: FpBabyBear, a1: FpBabyBear, a2: FpBabyBear, a3: FpBabyBear) -> (r: (
    FpBabyBear,
    FpBabyBear,
    FpBabyBear,
    FpBabyBear,
))
    ensures
        r.0.val() == (5 * a0.val() + 7 * a1.val() + a2.val() + 3 * a3.val()) % p(),
        r.1.val() == (4 * a0.val() + 6 * a1.val() + a2.val() + a3.val()) % p(),
        r.2.val() == (a0.val() + 3 * a1.val() + 5 * a2.val() + 7 * a3.val()) % p(),
        r.3.val() == (a0.val() + a1.val() + 4 * a2.val() + 6 * a3.val()) % p(),
{
    let ghost x0 = a0.val();
    let ghost x1 = a1.val();
    let ghost x2 = a2.val();
    let ghost x3 = a3.val();
    let t_0: FpBabyBear = a0.add(a1);
    let t_1: FpBabyBear = a2.add(a3);
    let t_2: FpBabyBear = a1.double().add(t_1);
    proof {
        lemma_add2(2 * x1, x2 + x3);
        lemma_small_mod(x1 as nat, p() as nat);
    }
    let t_3: FpBabyBear = a3.double().add(t_0);
    proof {
        lemma_add2(2 * x3, x0 + x1);
    }
    let t_4: FpBabyBear = t_1.double().double().add(t_3);
    proof {
        lemma_dbl(x2 + x3);
        lemma_dbl(2 * (x2 + x3));
        lemma_add2(2 * (2 * (x2 + x3)), 2 * x3 + (x0 + x1));
    }
    let t_5: FpBabyBear = t_0.double().double().add(t_2);
    proof {
        lemma_dbl(x0 + x1);
        lemma_dbl(2 * (x0 + x1));
        lemma_add2(2 * (2 * (x0 + x1)), 2 * x1 + (x2 + x3));
    }
    let t_6: FpBabyBear = t_3.add(t_5);
    proof {
        lemma_add2(2 * x3 + (x0 + x1), 2 * (2 * (x0 + x1)) + (2 * x1 + (x2 + x3)));
    }
    let t_7: FpBabyBear = t_2.add(t_4);
    proof {
        lemma_add2(2 * x1 + (x2 + x3), 2 * (2 * (x2 + x3)) + (2 * x3 + (x0 + x1)));
    }
    (t_6, t_5, t_7, t_4)
}

impl Poseidon2 {
    #[verifier::type_invariant]
    closed spec fn params_ok(self) -> bool {
        self.params.wf()
    }

    /// The parameters of this instance.
    pub closed spec fn spec_params(&self) -> Poseidon2Params {
        *self.params
    }

    /// An instance sharing `params`.
    pub fn new(params: &Arc<Poseidon2Params>) -> (r: Self)
        requires
            params.wf(),
        ensures
            r.spec_params() == **params,
    {
        Poseidon2 { params: arc_clone(params) }
    }

    /// The state width.
    pub fn get_t(&self) -> (r: usize)
        ensures
            r == self.spec_params().t,
    {
        self.params.t
    }

    /// `x^d`.
    fn sbox_p(&self, input: &FpBabyBear) -> (r: FpBabyBear)
        ensures
            r.val() == sbox_spec(self.spec_params().d as int, input.val()),
    {
        proof {
            use_type_invariant(self);
        }
        let x: FpBabyBear = *input;
        let input2: FpBabyBear = x.square();
        let ghost xv = x.val();
        let ghost x2 = xv * xv;
        proof {
            lemma_square_is_pow2(xv);
        }
        let d: usize = self.params.d;
        if d == 3 {
            let out: FpBabyBear = input2.mul(x);
            proof {
                lemma_mul_mod_noop_left(x2, xv, p());
                lemma_pow_adds(xv, 2, 1);
                lemma_pow1(xv);
            }
            out
        } else if d == 5 {
            let out: FpBabyBear = input2.square().mul(x);
            proof {
                lemma_mul_mod_noop(x2, x2, p());
                lemma_mul_mod_noop_left(x2 * x2, xv, p());
                lemma_pow_adds(xv, 2, 2);
                lemma_pow_adds(xv, 4, 1);
                lemma_pow1(xv);
            }
            out
        } else {
            let out: FpBabyBear = input2.square().mul(input2).mul(x);
            proof {
                lemma_mul_mod_noop(x2, x2, p());
                lemma_mul_mod_noop(x2 * x2, x2, p());
                lemma_mul_mod_noop_left(x2 * x2 * x2, xv, p());
                lemma_pow_adds(xv, 2, 2);
                lemma_pow_adds(xv, 4, 2);
                lemma_pow_adds(xv, 6, 1);
                lemma_pow1(xv);
            }
            out
        }
    }

    /// The S-box applied to every element.
    fn sbox(&self, input: &[FpBabyBear]) -> (r: Vec<FpBabyBear>)
        ensures
            vals(r@) == sbox_all_spec(self.spec_params().d as int, vals(input@)),
    {
        let mut out: Vec<FpBabyBear> = Vec::new();
        let mut i: usize = 0;
        while i < input.len()
            invariant
                i <= input@.len(),
                vals(out@) == sbox_all_spec(self.spec_params().d as int, vals(input@)).subrange(
                    0,
                    i as int,
                ),
            decreases input@.len() - i,
        {
            let y: FpBabyBear = self.sbox_p(&input[i]);
            proof {
                lemma_vals_push(out@, y);
            }
            out.push(y);
            proof {
                let full = sbox_all_spec(self.spec_params().d as int, vals(input@));
                assert(full.subrange(0, i + 1) =~= full.subrange(0, i as int).push(y.val()));
            }
            i = i + 1;
        }
        proof {
            let full = sbox_all_spec(self.spec_params().d as int, vals(input@));
            assert(full.subrange(0, input@.len() as int) =~= full);
        }
        out
    }

    /// The 4x4 matrix applied to each of the first `t / 4` blocks.
    fn matmul_m4(&self, input: &mut [FpBabyBear])
        requires
            old(input)@.len() >= 4 * (self.spec_params().t / 4),
        ensures
            vals(final(input)@) == m4_spec(vals(old(input)@), (self.spec_params().t / 4) as int),
    {
        let t: usize = self.params.t;
        let t4: usize = t / 4;
        let ghost x = vals(input@);
        let mut i: usize = 0;
        while i < t4
            invariant
                t4 == self.spec_params().t / 4,
                input@.len() == x.len(),
                x.len() >= 4 * t4,
                i <= t4,
                forall|j: int|
                    0 <= j < x.len() ==> #[trigger] vals(input@)[j] == if j < 4 * i {
                        m4_row(x, j)
                    } else {
                        x[j]
                    },
            decreases t4 - i,
        {
            let start_index: usize = i * 4;
            proof {
                assert(vals(input@)[start_index as int] == input@[start_index as int].val());
                assert(vals(input@)[start_index + 1] == input@[start_index + 1].val());
                assert(vals(input@)[start_index + 2] == input@[start_index + 2].val());
                assert(vals(input@)[start_index + 3] == input@[start_index + 3].val());
            }
            let (o0, o1, o2, o3) = m4_block(
                input[start_index],
                input[start_index + 1],
                input[start_index + 2],
                input[start_index + 3],
            );
            let ghost before = input@;
            input[start_index] = o0;
            input[start_index + 1] = o1;
            input[start_index + 2] = o2;
            input[start_index + 3] = o3;
            proof {
                assert forall|j: int| 0 <= j < x.len() implies #[trigger] vals(input@)[j] == if j < 4
                    * (i + 1) {
                    m4_row(x, j)
                } else {
                    x[j]
                } by {
                    assert(vals(input@)[j] == input@[j].val());
                    assert(vals(before)[j] == before[j].val());
                    if start_index <= j < start_index + 4 {
                        assert(j - j % 4 == start_index) by {
                            lemma_fundamental_div_mod(j, 4);
                        }
                    }
                }
            }
            i = i + 1;
        }
        proof {
            assert(vals(input@) =~= m4_spec(x, t4 as int));
        }
    }

    /// The external linear layer.
    fn matmul_external(&self, input: &mut [FpBabyBear])
        requires
            old(input)@.len() == self.spec_params().t,
        ensures
            vals(final(input)@) == external_spec(self.spec_params().t as int, vals(old(input)@)),
    {
        proof {
            use_type_invariant(self);
        }
        let t: usize = self.params.t;
        let ghost x = vals(input@);
        proof {
            assert(x[0] == input@[0].val());
            assert(x[1] == input@[1].val());
        }
        if t == 2 {
            let sum: FpBabyBear = input[0].add(input[1]);
            input[0] = input[0].add(sum);
            input[1] = input[1].add(sum);
            proof {
                lemma_add2(x[0], x[0] + x[1]);
                lemma_add2(x[1], x[0] + x[1]);
                lemma_small_mod(x[0] as nat, p() as nat);
                lemma_small_mod(x[1] as nat, p() as nat);
                assert(vals(input@) =~= external_spec(2, x));
            }
        } else if t == 3 {
            proof {
                assert(x[2] == input@[2].val());
            }
            let sum: FpBabyBear = input[0].add(input[1]).add(input[2]);
            proof {
                lemma_add2(x[0] + x[1], x[2]);
                lemma_small_mod(x[2] as nat, p() as nat);
            }
            let ghost before = input@;
            input[0] = input[0].add(sum);
            input[1] = input[1].add(sum);
            input[2] = input[2].add(sum);
            proof {
                assert forall|i: int| 0 <= i < 3 implies #[trigger] vals(input@)[i] == (x[i] + x[0]
                    + x[1] + x[2]) % p() by {
                    assert(vals(input@)[i] == input@[i].val());
                    assert(x[i] == before[i].val());
                    lemma_add2(x[i], x[0] + x[1] + x[2]);
                    lemma_small_mod(x[i] as nat, p() as nat);
                }
                assert(vals(input@) =~= external_spec(3, x));
            }
        } else if t == 4 {
            self.matmul_m4(input);
        } else {
            self.matmul_m4(input);
            let ghost y = vals(input@);
            proof {
                assert(y.len() == input@.len());
                assert(m4_spec(x, (t / 4) as int).len() == x.len());
            }
            let t4: usize = t / 4;
            let mut stored: Vec<FpBabyBear> = Vec::new();
            let mut l: usize = 0;
            while l < 4
                invariant
                    t4 == t / 4,
                    2 <= t4 <= 6,
                    t4 * 4 == t,
                    input@.len() == t,
                    y == vals(input@),
                    l <= 4,
                    stored@.len() == l,
                    forall|m: int| 0 <= m < l ==> #[trigger] stored@[m].val() == column_sum(y, t4 as int, m),
                decreases 4 - l,
            {
                let mut acc: FpBabyBear = input[l];
                let ghost f = |j: int| y[4 * j + l];
                proof {
                    assert(y[l as int] == input@[l as int].val());
                    assert(fsum(1, f) == fsum(0, f) + f(0));
                    lemma_small_mod(y[l as int] as nat, p() as nat);
                }
                let mut j: usize = 1;
                while j < t4
                    invariant
                        t4 == t / 4,
                        t4 * 4 == t,
                        input@.len() == t,
                        y == vals(input@),
                        l < 4,
                        1 <= j <= t4,
                        f == (|j: int| y[4 * j + l]),
                        acc.val() == fsum(j as nat, f) % p(),
                    decreases t4 - j,
                {
                    proof {
                        assert(y[4 * j + l] == input@[4 * j + l].val());
                    }
                    acc = acc.add(input[4 * j + l]);
                    proof {
                        lemma_add2(fsum(j as nat, f), f(j as int));
                        lemma_small_mod(f(j as int) as nat, p() as nat);
                    }
                    j = j + 1;
                }
                stored.push(acc);
                l = l + 1;
            }
            let mut i: usize = 0;
            while i < input.len()
                invariant
                    t4 == t / 4,
                    t4 * 4 == t,
                    input@.len() == t,
                    y.len() == t,
                    stored@.len() == 4,
                    forall|m: int| 0 <= m < 4 ==> #[trigger] stored@[m].val() == column_sum(y, t4 as int, m),
                    i <= t,
                    forall|j: int|
                        0 <= j < t ==> #[trigger] vals(input@)[j] == if j < i {
                            (y[j] + column_sum(y, t4 as int, j % 4)) % p()
                        } else {
                            y[j]
                        },
                decreases t - i,
            {
                proof {
                    assert(vals(input@)[i as int] == input@[i as int].val());
                }
                let ghost before = input@;
                input[i] = input[i].add(stored[i % 4]);
                proof {
                    assert forall|j: int| 0 <= j < t implies #[trigger] vals(input@)[j] == if j < i
                        + 1 {
                        (y[j] + column_sum(y, t4 as int, j % 4)) % p()
                    } else {
                        y[j]
                    } by {
                        assert(vals(input@)[j] == input@[j].val());
                        assert(vals(before)[j] == before[j].val());
                        if j == i {
                            lemma_add2(y[j], column_sum(y, t4 as int, j % 4));
                            lemma_small_mod(y[j] as nat, p() as nat);
                            lemma_mod_twice(fsum(t4 as nat, |k: int| y[4 * k + j % 4]), p());
                        }
                    }
                }
                i = i + 1;
            }
            proof {
                assert(vals(input@) =~= external_spec(t as int, x));
            }
        }
    }

    /// The internal linear layer.
    fn matmul_internal(&self, input: &mut [FpBabyBear], mat_internal_diag_m_1: &[FpBabyBear])
        requires
            old(input)@.len() == self.spec_params().t,
            self.spec_params().t >= 4 ==> mat_internal_diag_m_1@.len() >= self.spec_params().t,
        ensures
            vals(final(input)@) == internal_spec(
                self.spec_params().t as int,
                vals(old(input)@),
                vals(mat_internal_diag_m_1@),
            ),
    {
        proof {
            use_type_invariant(self);
        }
        let t: usize = self.params.t;
        let ghost x = vals(input@);
        let ghost dg = vals(mat_internal_diag_m_1@);
        proof {
            assert(x[0] == input@[0].val());
            assert(x[1] == input@[1].val());
            lemma_small_mod(x[0] as nat, p() as nat);
            lemma_small_mod(x[1] as nat, p() as nat);
        }
        if t == 2 {
            let sum: FpBabyBear = input[0].add(input[1]);
            input[0] = input[0].add(sum);
            input[1] = input[1].double().add(sum);
            proof {
                lemma_add2(x[0], x[0] + x[1]);
                lemma_add2(2 * x[1], x[0] + x[1]);
                assert(vals(input@) =~= internal_spec(2, x, dg));
            }
        } else if t == 3 {
            proof {
                assert(x[2] == input@[2].val());
                lemma_small_mod(x[2] as nat, p() as nat);
            }
            let sum: FpBabyBear = input[0].add(input[1]).add(input[2]);
            proof {
                lemma_add2(x[0] + x[1], x[2]);
            }
            input[0] = input[0].add(sum);
            input[1] = input[1].add(sum);
            input[2] = input[2].double().add(sum);
            proof {
                lemma_add2(x[0], x[0] + x[1] + x[2]);
                lemma_add2(x[1], x[0] + x[1] + x[2]);
                lemma_add2(2 * x[2], x[0] + x[1] + x[2]);
                assert(vals(input@) =~= internal_spec(3, x, dg));
            }
        } else {
            let ghost f = |k: int| x[k];
            let mut sum: FpBabyBear = input[0];
            proof {
                assert(fsum(1, f) == fsum(0, f) + f(0));
            }
            let mut k: usize = 1;
            while k < t
                invariant
                    input@.len() == t,
                    x == vals(input@),
                    4 <= t <= 24,
                    1 <= k <= t,
                    f == (|k: int| x[k]),
                    sum.val() == fsum(k as nat, f) % p(),
                decreases t - k,
            {
                proof {
                    assert(x[k as int] == input@[k as int].val());
                    lemma_add2(fsum(k as nat, f), f(k as int));
                    lemma_small_mod(x[k as int] as nat, p() as nat);
                }
                sum = sum.add(input[k]);
                k = k + 1;
            }
            let mut i: usize = 0;
            while i < input.len()
                invariant
                    input@.len() == t,
                    x.len() == t,
                    4 <= t <= 24,
                    mat_internal_diag_m_1@.len() >= t,
                    dg == vals(mat_internal_diag_m_1@),
                    sum.val() == fsum(t as nat, f) % p(),
                    f == (|k: int| x[k]),
                    i <= t,
                    forall|j: int|
                        0 <= j < t ==> #[trigger] vals(input@)[j] == if j < i {
                            (x[j] * dg[j] + fsum(t as nat, f)) % p()
                        } else {
                            x[j]
                        },
                decreases t - i,
            {
                proof {
                    assert(vals(input@)[i as int] == input@[i as int].val());
                    assert(dg[i as int] == mat_internal_diag_m_1@[i as int].val());
                }
                let ghost before = input@;
                input[i] = input[i].mul(mat_internal_diag_m_1[i]).add(sum);
                proof {
                    assert forall|j: int| 0 <= j < t implies #[trigger] vals(input@)[j] == if j < i
                        + 1 {
                        (x[j] * dg[j] + fsum(t as nat, f)) % p()
                    } else {
                        x[j]
                    } by {
                        assert(vals(input@)[j] == input@[j].val());
                        assert(vals(before)[j] == before[j].val());
                        if j == i {
                            lemma_add2(x[j] * dg[j], fsum(t as nat, f));
                        }
                    }
                }
                i = i + 1;
            }
            proof {
                assert(vals(input@) =~= internal_spec(t as int, x, dg));
            }
        }
    }

    /// Adds the round constants elementwise (as long as the shorter operand).
    fn add_rc(&self, input: &[FpBabyBear], rc: &[FpBabyBear]) -> (r: Vec<FpBabyBear>)
        ensures
            vals(r@) == add_rc_spec(vals(input@), vals(rc@)),
    {
        let n: usize = if input.len() <= rc.len() {
            input.len()
        } else {
            rc.len()
        };
        let mut out: Vec<FpBabyBear> = Vec::new();
        let mut i: usize = 0;
        while i < n
            invariant
                n <= input@.len(),
                n <= rc@.len(),
                n == add_rc_spec(vals(input@), vals(rc@)).len(),
                i <= n,
                vals(out@) == add_rc_spec(vals(input@), vals(rc@)).subrange(0, i as int),
            decreases n - i,
        {
            let y: FpBabyBear = input[i].add(rc[i]);
            proof {
                lemma_vals_push(out@, y);
            }
            out.push(y);
            proof {
                let full = add_rc_spec(vals(input@), vals(rc@));
                assert(full.subrange(0, i + 1) =~= full.subrange(0, i as int).push(y.val()));
            }
            i = i + 1;
        }
        proof {
            let full = add_rc_spec(vals(input@), vals(rc@));
            assert(full.subrange(0, n as int) =~= full);
        }
        out
    }

    /// One full round: constants, S-boxes on the whole state, external layer.
    fn full_round(&self, state: Vec<FpBabyBear>, r: usize) -> (out: Vec<FpBabyBear>)
        requires
            state@.len() == self.spec_params().t,
            r < self.spec_params().rounds,
            r < self.spec_params().rounds_f_beginning || r >= self.spec_params().rounds_f_beginning
                + self.spec_params().rounds_p,
        ensures
            out@.len() == self.spec_params().t,
            vals(out@) == round_spec(self.spec_params(), vals(state@), r as int),
    {
        proof {
            use_type_invariant(self);
            assert(self.spec_params().round_constants@[r as int]@.len() >= self.spec_params().t);
        }
        let s1: Vec<FpBabyBear> = self.add_rc(state.as_slice(), self.params.round_constants[r].as_slice());
        let mut s2: Vec<FpBabyBear> = self.sbox(s1.as_slice());
        proof {
            assert(vals(s1@).len() == s1@.len());
            assert(vals(s2@).len() == s2@.len());
        }
        self.matmul_external(&mut s2);
        proof {
            assert(vals(s2@).len() == s2@.len());
        }
        s2
    }

    /// The Poseidon2 permutation of a state of width `t`.
    pub fn permutation(&self, input: &[FpBabyBear]) -> (r: Vec<FpBabyBear>)
        requires
            input@.len() == self.spec_params().t,
        ensures
            r@.len() == self.spec_params().t,
            vals(r@) == permutation_spec(self.spec_params(), vals(input@)),
    {
        proof {
            use_type_invariant(self);
        }
        let ghost pp = self.spec_params();
        let mut current_state: Vec<FpBabyBear> = copy_poly(input);
        self.matmul_external(&mut current_state);
        let ghost s0 = vals(current_state@);
        proof {
            assert(vals(current_state@).len() == current_state@.len());
        }
        let rfb: usize = self.params.rounds_f_beginning;
        let mut r: usize = 0;
        while r < rfb
            invariant
                pp == self.spec_params(),
                pp.wf(),
                rfb == pp.rounds_f_beginning,
                r <= rfb,
                current_state@.len() == pp.t,
                vals(current_state@) == rounds_spec(pp, s0, r as nat),
            decreases rfb - r,
        {
            current_state = self.full_round(current_state, r);
            r = r + 1;
        }
        let p_end: usize = rfb + self.params.rounds_p;
        while r < p_end
            invariant
                pp == self.spec_params(),
                pp.wf(),
                rfb == pp.rounds_f_beginning,
                p_end == pp.rounds_f_beginning + pp.rounds_p,
                rfb <= r <= p_end,
                current_state@.len() == pp.t,
                vals(current_state@) == rounds_spec(pp, s0, r as nat),
            decreases p_end - r,
        {
            let ghost before = vals(current_state@);
            proof {
                assert(pp.round_constants@[r as int]@.len() >= 1);
                assert(before[0] == current_state@[0].val());
                assert(pp.rc(r as int)[0] == pp.round_constants@[r as int]@[0].val());
            }
            let a: FpBabyBear = current_state[0].add(self.params.round_constants[r][0]);
            let b: FpBabyBear = self.sbox_p(&a);
            current_state.set(0, b);
            proof {
                assert(vals(current_state@) =~= before.update(
                    0,
                    sbox_spec(pp.d as int, (before[0] + pp.rc(r as int)[0]) % p()),
                ));
            }
            self.matmul_internal(&mut current_state, self.params.mat_internal_diag_m_1.as_slice());
            proof {
                assert(vals(current_state@).len() == current_state@.len());
            }
            r = r + 1;
        }
        let rounds: usize = self.params.rounds;
        while r < rounds
            invariant
                pp == self.spec_params(),
                pp.wf(),
                rounds == pp.rounds,
                p_end == pp.rounds_f_beginning + pp.rounds_p,
                p_end <= r <= rounds,
                current_state@.len() == pp.t,
                vals(current_state@) == rounds_spec(pp, s0, r as nat),
            decreases rounds - r,
        {
            current_state = self.full_round(current_state, r);
            r = r + 1;
        }
        current_state
    }
}

impl Hasher for Poseidon2 {
    open spec fn spec_hash(&self, input: Seq<int>) -> Seq<u8> {
        hash_spec(self.spec_params(), input)
    }

    fn hash(&self, input: &[FpBabyBear]) -> (out: Vec<u8>) {
        proof {
            use_type_invariant(self);
        }
        let ghost pp = self.spec_params();
        let ghost iv = vals(input@);
        let t: usize = self.get_t();
        let mut state: Vec<FpBabyBear> = Vec::new();
        let mut i: usize = 0;
        while i < t
            invariant
                i <= t,
                state@.len() == i,
                forall|j: int|
                    0 <= j < i ==> #[trigger] state@[j].val() == if j < iv.len() {
                        iv[j]
                    } else {
                        0
                    },
                iv == vals(input@),
            decreases t - i,
        {
            if i < input.len() {
                state.push(input[i]);
            } else {
                state.push(FpBabyBear::zero());
            }
            i = i + 1;
        }
        let ghost sv = hash_input_state(pp.t as int, iv);
        proof {
            assert(vals(state@) =~= sv);
        }
        let result_state: Vec<FpBabyBear> = self.permutation(state.as_slice());
        let ghost out_v = permutation_spec(pp, sv);
        let mut output: Vec<u8> = Vec::new();
        let mut k: usize = 0;
        while k < 32
            invariant
                k <= 32,
                output@.len() == k,
                forall|j: int| 0 <= j < k ==> #[trigger] output@[j] == hash_spec(pp, iv)[j],
                vals(result_state@) == out_v,
                out_v == permutation_spec(pp, sv),
                sv == hash_input_state(pp.t as int, iv),
                t == pp.t,
                result_state@.len() == t,
            decreases 32 - k,
        {
            let i: usize = k / 8;
            if i < t {
                let bytes: Vec<u8> = result_state[i].to_bytes_le();
                output.push(bytes[k % 8]);
                proof {
                    assert(out_v[i as int] == result_state@[i as int].val());
                }
            } else {
                output.push(0u8);
            }
            k = k + 1;
        }
        proof {
            assert(output@ =~= hash_spec(pp, iv));
        }
        output
    }
}

/// A Poseidon2 hash is 32 bytes long whatever the input, so it always has the eight
/// bytes that FRI reads from it.
pub proof fn lemma_poseidon2_wide(h: &Poseidon2)
    ensures
        crate::fri::wide_hasher(h),
{
    assert forall|s: Seq<int>| #[trigger] h.spec_hash(s).len() >= 8 by {}
}

/// The Poseidon2 hash reads only the first `t` inputs, and pads with zeros: inputs past
/// the width `t` are dropped, and a trailing zero (any element of value 0) below the
/// width changes nothing.
pub proof fn lemma_hash_cuts_and_pads(h: &Poseidon2, input: Seq<FpBabyBear>, zero: FpBabyBear)
    ensures
        input.len() > h.spec_params().t ==> h.spec_hash(vals(input)) == h.spec_hash(
            vals(input.subrange(0, h.spec_params().t as int)),
        ),
        input.len() < h.spec_params().t && zero.val() == 0 ==> h.spec_hash(vals(input.push(zero)))
            == h.spec_hash(vals(input)),
{
    let t = h.spec_params().t as int;
    let pp = h.spec_params();
    if input.len() > t {
        assert(hash_input_state(t, vals(input)) =~= hash_input_state(
            t,
            vals(input.subrange(0, t)),
        ));
    }
    if input.len() < t && zero.val() == 0 {
        assert(hash_input_state(t, vals(input.push(zero))) =~= hash_input_state(
            t,
            vals(input),
        ));
    }
}

} // verus!
