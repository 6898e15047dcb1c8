//! FRI: committing to a polynomial's evaluations by repeated folding, and checking
//! random openings of the committed layers.
use crate::domain::{EvaluationDomain, StarkDomain};
use crate::error::StarkError;
use crate::fft::{exact_log2, intt, lemma_pow2_injective, log2_spec};
use crate::field_babybear::{le_bytes_value, p, root_of_unity_spec, vals, FpBabyBear};
use crate::merkle_tree_fp::{
    hash_pair, is_pow2, lemma_merkle_completeness, lemma_xor_one, merkle_layers, merkle_path,
    next_pow2_spec, pad_leaves, path_root, sibling, Hasher, MerkleProof, MerkleTree,
};
use crate::poly::{copy_poly, eval, poly_value, Poly};
use vstd::arithmetic::div_mod::*;
use vstd::arithmetic::mul::*;
use vstd::arithmetic::power::*;
use vstd::arithmetic::power2::*;
use vstd::prelude::*;

verus! {

broadcast use FpBabyBear::lemma_val_range;

/// A layer commitment: the Merkle root over the layer's values.
pub type FriHash = FpBabyBear;

/// The openings of one query: per layer, the path of the queried position, the values
/// at that position and at its neighbour, and the path of the neighbour.
#[derive(Debug)]
pub struct FriQueryProof {
    pub layer_proofs: Vec<(MerkleProof, (FpBabyBear, FpBabyBear), MerkleProof)>,
}

/// The roots of the committed layers and the polynomial that remains after folding.
#[derive(Debug)]
pub struct FriCommitment {
    pub roots: Vec<FriHash>,
    pub final_poly: Poly,
}

/// A FRI proof: the commitments and the query openings.
#[derive(Debug)]
pub struct FriProof {
    pub commitments: Vec<FriCommitment>,
    pub queries: Vec<FriQueryProof>,
}

/// `h` yields at least eight bytes on every input.
pub open spec fn wide_hasher<H: Hasher>(h: &H) -> bool {
    forall|s: Seq<int>| #[trigger] h.spec_hash(s).len() >= 8
}

/// The folding challenge of the layer with index `layer_index` (counted from one) and
/// root `root`.
pub open spec fn alpha_spec<H: Hasher>(h: &H, root: int, layer_index: int) -> int {
    le_bytes_value(h.spec_hash(seq![root, layer_index % p()])) as int % p()
}

/// The hash input of query `i`: the layer roots, the digest of the final polynomial, `i`.
pub open spec fn query_seed<H: Hasher>(h: &H, roots: Seq<int>, final_poly: Seq<int>, i: int) -> Seq<
    int,
> {
    roots + seq![le_bytes_value(h.spec_hash(final_poly)) as int % p(), i % p()]
}

/// The position opened by query `i`: the first eight bytes of its hash, read as a
/// little-endian integer, modulo the domain size.
pub open spec fn query_index_spec<H: Hasher>(
    h: &H,
    roots: Seq<int>,
    final_poly: Seq<int>,
    domain_size: int,
    i: int,
) -> int {
    ((le_bytes_value(h.spec_hash(query_seed(h, roots, final_poly, i)).subrange(0, 8)) as u64)
        as usize) as int % domain_size
}

/// The challenge for layer `layer_index`, from its root.
fn compute_alpha<H: Hasher>(hasher: &H, root: &FriHash, layer_index: usize) -> (r: FpBabyBear)
    ensures
        r.val() == alpha_spec(hasher, root.val(), layer_index as int),
{
    let input: Vec<FpBabyBear> = vec![*root, FpBabyBear::from_u64(layer_index as u64)];
    proof {
        assert(vals(input@) =~= seq![root.val(), layer_index as int % p()]);
    }
    let hash_bytes: Vec<u8> = hasher.hash(input.as_slice());
    FpBabyBear::from_le_bytes_mod_order(hash_bytes.as_slice())
}

/// The little-endian value of a byte string is below 256^len.
proof fn lemma_le_bytes_bound(s: Seq<u8>)
    ensures
        le_bytes_value(s) < pow(256, s.len()),
    decreases s.len(),
{
    if s.len() == 0 {
        lemma_pow0(256);
    } else {
        lemma_le_bytes_bound(s.drop_first());
        lemma_pow_positive(256, (s.len() - 1) as nat);
        lemma_pow1(256);
        lemma_pow_adds(256, 1, (s.len() - 1) as nat);
        let t = le_bytes_value(s.drop_first()) as int;
        let q = pow(256, (s.len() - 1) as nat);
        assert(s[0] as int + 256 * t < 256 * q) by (nonlinear_arith)
            requires
                t < q,
                0 <= s[0] < 256,
        ;
    }
}

proof fn lemma_pow256_8()
    ensures
        pow(256, 8) == 0x1_0000_0000_0000_0000,
{
    reveal_with_fuel(pow, 9);
}

/// The unsigned integer of the first eight bytes, little-endian.
fn u64_from_le8(bytes: &[u8]) -> (r: u64)
    requires
        bytes@.len() >= 8,
    ensures
        r == le_bytes_value(bytes@.subrange(0, 8)),
{
    let mut acc: u64 = 0;
    let mut i: usize = 8;
    proof {
        assert(bytes@.subrange(8, 8).len() == 0);
        lemma_pow0(256);
    }
    while i > 0
        invariant
            bytes@.len() >= 8,
            i <= 8,
            acc == le_bytes_value(bytes@.subrange(i as int, 8)),
            acc < pow(256, (8 - i) as nat),
        decreases i,
    {
        i = i - 1;
        let ghost s = bytes@.subrange(i as int, 8);
        proof {
            assert(s.drop_first() =~= bytes@.subrange(i + 1, 8));
            lemma_le_bytes_bound(s);
            lemma_pow256_8();
            lemma_pow_increases(256, s.len(), 8);
        }
        acc = acc * 256 + bytes[i] as u64;
    }
    proof {
        assert(bytes@.subrange(0, 8) =~= bytes@.subrange(0, 8));
    }
    acc
}

/// The positions opened by `num_queries` queries, derived from the commitments.
fn generate_query_indices<H: Hasher>(
    hasher: &H,
    roots: &[FriHash],
    final_poly: &[FpBabyBear],
    domain_size: usize,
    num_queries: usize,
) -> (r: Vec<usize>)
    requires
        num_queries > 0 ==> wide_hasher(hasher),
        num_queries > 0 ==> domain_size > 0,
    ensures
        r@.len() == num_queries,
        forall|i: int|
            0 <= i < num_queries ==> #[trigger] r@[i] == query_index_spec(
                hasher,
                vals(roots@),
                vals(final_poly@),
                domain_size as int,
                i,
            ),
{
    let final_poly_hash: Vec<u8> = hasher.hash(final_poly);
    let final_poly_hash_fe: FpBabyBear = FpBabyBear::from_le_bytes_mod_order(
        final_poly_hash.as_slice(),
    );
    let mut out: Vec<usize> = Vec::new();
    let mut i: usize = 0;
    while i < num_queries
        invariant
            num_queries > 0 ==> wide_hasher(hasher),
            num_queries > 0 ==> domain_size > 0,
            final_poly_hash_fe.val() == le_bytes_value(hasher.spec_hash(vals(final_poly@))) as int
                % p(),
            i <= num_queries,
            out@.len() == i,
            forall|j: int|
                0 <= j < i ==> #[trigger] out@[j] == query_index_spec(
                    hasher,
                    vals(roots@),
                    vals(final_poly@),
                    domain_size as int,
                    j,
                ),
        decreases num_queries - i,
    {
        let i_fe: FpBabyBear = FpBabyBear::from_u64(i as u64);
        let mut seed: Vec<FpBabyBear> = Vec::new();
        let mut k: usize = 0;
        while k < roots.len()
            invariant
                k <= roots@.len(),
                seed@ == roots@.subrange(0, k as int),
            decreases roots@.len() - k,
        {
            seed.push(roots[k]);
            k = k + 1;
        }
        seed.push(final_poly_hash_fe);
        seed.push(i_fe);
        proof {
            assert(vals(seed@) =~= query_seed(hasher, vals(roots@), vals(final_poly@), i as int));
        }
        let hash_bytes: Vec<u8> = hasher.hash(seed.as_slice());
        proof {
            assert(hasher.spec_hash(vals(seed@)).len() >= 8);
        }
        let v: u64 = u64_from_le8(hash_bytes.as_slice());
        let idx: usize = (v as usize) % domain_size;
        out.push(idx);
        i = i + 1;
    }
    out
}

/// One folding step: the neighbours `s[2j]` and `s[2j+1]` become `s[2j] + alpha * s[2j+1]`.
pub open spec fn fold_spec(s: Seq<int>, alpha: int) -> Seq<int> {
    Seq::new(s.len() / 2, |j: int| (s[2 * j] + alpha * s[2 * j + 1]) % p())
}

/// The Merkle root committing to the values `s`.
pub open spec fn commit_root<H: Hasher>(h: &H, s: Seq<int>) -> int {
    merkle_layers(h, pad_leaves(s)).last()[0]
}

/// The challenge for folding the layer `s`, committed as layer `k` (counted from zero).
pub open spec fn layer_alpha<H: Hasher>(h: &H, s: Seq<int>, k: nat) -> int {
    alpha_spec(h, commit_root(h, s), (k + 1) as int)
}

/// The committed layers: `s` (as layer `k`) and what folding it gives, down to (but not
/// including) a single value.
pub open spec fn fri_layers<H: Hasher>(h: &H, s: Seq<int>, k: nat) -> Seq<Seq<int>>
    decreases s.len(),
{
    if s.len() <= 1 {
        Seq::empty()
    } else {
        seq![s] + fri_layers(h, fold_spec(s, layer_alpha(h, s, k)), k + 1)
    }
}

/// What remains of `s` (committed from layer `k` on) once folding stops.
pub open spec fn fri_remainder<H: Hasher>(h: &H, s: Seq<int>, k: nat) -> Seq<int>
    decreases s.len(),
{
    if s.len() <= 1 {
        s
    } else {
        fri_remainder(h, fold_spec(s, layer_alpha(h, s, k)), k + 1)
    }
}

/// The roots of the committed layers.
pub open spec fn fri_roots<H: Hasher>(h: &H, s: Seq<int>) -> Seq<int> {
    let layers = fri_layers(h, s, 0);
    Seq::new(layers.len(), |j: int| commit_root(h, layers[j]))
}

/// `o` opens `layer` at position `i`: the Merkle path of `i`, the values at `i` and at
/// its neighbour, and the Merkle path of the neighbour.
pub open spec fn opening_matches<H: Hasher>(
    h: &H,
    layer: Seq<int>,
    i: int,
    o: (MerkleProof, (FpBabyBear, FpBabyBear), MerkleProof),
) -> bool {
    let tree = merkle_layers(h, pad_leaves(layer));
    &&& vals(o.0.siblings@) == merkle_path(tree, i)
    &&& o.1.0.val() == layer[i]
    &&& o.1.1.val() == layer[sibling(i)]
    &&& vals(o.2.siblings@) == merkle_path(tree, sibling(i))
}

/// `pf` is the proof that the prover gives for the values `s` over a domain of
/// `domain_size` points: one commitment with the layer roots and the remaining
/// polynomial, and three queries, each opening every layer at the queried position
/// halved once per layer.
pub open spec fn is_honest_fri_proof<H: Hasher>(
    h: &H,
    s: Seq<int>,
    domain_size: int,
    pf: FriProof,
) -> bool {
    let layers = fri_layers(h, s, 0);
    let roots = fri_roots(h, s);
    let fin = fri_remainder(h, s, 0);
    &&& pf.commitments@.len() == 1
    &&& vals(pf.commitments@[0].roots@) == roots
    &&& vals(pf.commitments@[0].final_poly@) == fin
    &&& pf.queries@.len() == 3
    &&& forall|q: int|
        0 <= q < 3 ==> {
            let ops = #[trigger] pf.queries@[q].layer_proofs@;
            let idx = query_index_spec(h, roots, fin, domain_size, q);
            &&& ops.len() == layers.len()
            &&& forall|j: int|
                0 <= j < layers.len() ==> opening_matches(
                    h,
                    layers[j],
                    idx / pow2(j as nat) as int,
                    #[trigger] ops[j],
                )
        }
}

/// The shape of the folding: from a layer of 2^e values, e layers are committed, layer j
/// holds 2^(e-j) values and folds into the next, and one value remains.
pub(crate) proof fn lemma_fri_shape<H: Hasher>(h: &H, s: Seq<int>, k: nat, e: nat)
    requires
        s.len() == pow2(e),
    ensures
        fri_layers(h, s, k).len() == e,
        fri_remainder(h, s, k).len() == 1,
        e == 0 ==> fri_remainder(h, s, k) == s,
        e > 0 ==> fri_layers(h, s, k)[0] == s,
        forall|j: int| 0 <= j < e ==> #[trigger] fri_layers(h, s, k)[j].len() == pow2((e - j) as nat),
        forall|j: int|
            0 <= j < e - 1 ==> fri_layers(h, s, k)[j + 1] == fold_spec(
                #[trigger] fri_layers(h, s, k)[j],
                layer_alpha(h, fri_layers(h, s, k)[j], k + j as nat),
            ),
        e > 0 ==> fri_remainder(h, s, k) == fold_spec(
            fri_layers(h, s, k)[e - 1],
            layer_alpha(h, fri_layers(h, s, k)[e - 1], (k + e - 1) as nat),
        ),
    decreases e,
{
    lemma2_to64();
    if e > 0 {
        lemma_pow2_unfold(e);
        lemma_pow2_pos((e - 1) as nat);
        let t = fold_spec(s, layer_alpha(h, s, k));
        assert(t.len() == pow2((e - 1) as nat));
        lemma_fri_shape(h, t, k + 1, (e - 1) as nat);
        let ls = fri_layers(h, s, k);
        let rest = fri_layers(h, t, k + 1);
        assert(ls == seq![s] + rest);
        assert forall|j: int| 0 <= j < e implies #[trigger] ls[j].len() == pow2((e - j) as nat) by {
            if j > 0 {
                assert(ls[j] == rest[j - 1]);
            }
        }
        assert forall|j: int| 0 <= j < e - 1 implies ls[j + 1] == fold_spec(
            #[trigger] ls[j],
            layer_alpha(h, ls[j], k + j as nat),
        ) by {
            assert(ls[j + 1] == rest[j]);
            if j > 0 {
                assert(ls[j] == rest[j - 1]);
                assert(k + j as nat == (k + 1) + (j - 1) as nat);
            }
        }
        if e > 1 {
            assert(ls[e - 1] == rest[e - 2]);
        }
    }
}

/// Powers of two up to usize::MAX leave room for doubling up to usize::MAX + 1.
proof fn lemma_pow2_half_max(e: nat)
    requires
        pow2(e) <= usize::MAX,
    ensures
        pow2(e) <= usize::MAX / 2 + 1,
{
    lemma2_to64();
    lemma2_to64_rest();
    assert(usize::MAX == 0xffff_ffff || usize::MAX == 0xffff_ffff_ffff_ffff);
    if e >= 64 {
        lemma_pow2_strictly_increases(64, e);
    } else if e >= 32 {
        if e > 32 {
            lemma_pow2_strictly_increases(32, e);
        }
        if e < 63 {
            lemma_pow2_strictly_increases(e, 63);
        }
    } else if e < 31 {
        lemma_pow2_strictly_increases(e, 31);
    }
}

/// The smallest power of two at least n is at least n.
proof fn lemma_next_pow2_ge(n: nat)
    ensures
        next_pow2_spec(n) >= n,
    decreases n,
{
    if n > 1 {
        lemma_next_pow2_ge(((n + 1) / 2) as nat);
    }
}

/// The values `s` folded with `alpha`.
fn fold_layer(s: &[FpBabyBear], alpha: FpBabyBear) -> (r: Poly)
    ensures
        vals(r@) == fold_spec(vals(s@), alpha.val()),
{
    let half: usize = s.len() / 2;
    let mut out: Vec<FpBabyBear> = Vec::new();
    let mut j: usize = 0;
    while j < half
        invariant
            half == s@.len() / 2,
            s@.len() <= usize::MAX,
            j <= half,
            out@.len() == j,
            forall|i: int|
                0 <= i < j ==> #[trigger] out@[i].val() == (s@[2 * i].val() + alpha.val() * s@[2 * i
                    + 1].val()) % p(),
        decreases half - j,
    {
        assert(2 * j + 1 < s@.len());
        let left: usize = 2 * j;
        let right: usize = left + 1;
        let v: FpBabyBear = s[left].add(alpha.mul(s[right]));
        proof {
            lemma_add_mod_noop(s@[2 * j as int].val(), alpha.val() * s@[2 * j + 1].val(), p());
            lemma_mod_twice(alpha.val() * s@[2 * j + 1].val(), p());
            lemma_small_mod(s@[2 * j as int].val() as nat, p() as nat);
            lemma_add_mod_noop(
                s@[2 * j as int].val(),
                (alpha.val() * s@[2 * j + 1].val()) % p(),
                p(),
            );
        }
        out.push(v);
        j = j + 1;
    }
    proof {
        assert(vals(out@) =~= fold_spec(vals(s@), alpha.val()));
    }
    out
}

/// The FRI proof for the evaluations `poly` over `domain`'s extension coset. The
/// evaluations are committed to by a Merkle tree and folded in half with a challenge
/// derived from the tree's root, again and again until one value remains; then three
/// positions derived from all roots are opened in every layer. Fails when the number of
/// evaluations is no power of two.
pub fn fri_prove<H: Hasher>(poly: Poly, domain: &StarkDomain, hasher: &H) -> (r: Result<
    FriProof,
    StarkError,
>)
    requires
        is_pow2(poly@.len() as nat) ==> wide_hasher(hasher),
        domain.lde_domain.size > 0,
        poly@.len() > 1 && is_pow2(poly@.len() as nat) ==> domain.lde_domain.size <= poly@.len(),
    ensures
        !is_pow2(poly@.len() as nat) ==> r == Err::<FriProof, StarkError>(
            StarkError::FriLengthNotPowerOfTwo,
        ),
        is_pow2(poly@.len() as nat) ==> (r matches Ok(pf) && is_honest_fri_proof(
            hasher,
            vals(poly@),
            domain.lde_domain.size as int,
            pf,
        )),
{
    let mut poly: Poly = poly;
    let initial_domain_size: usize = domain.lde_domain.size();
    let ghost e0: nat;
    match exact_log2(poly.len() as u64) {
        Some(k) => {
            proof {
                e0 = k as nat;
                assert(is_pow2(poly@.len() as nat));
            }
        },
        None => {
            return Err(StarkError::FriLengthNotPowerOfTwo);
        },
    }
    let ghost s0 = vals(poly@);
    let ghost all_layers = fri_layers(hasher, s0, 0);
    proof {
        lemma_fri_shape(hasher, s0, 0, e0);
    }
    // commit phase
    let mut layers: Vec<(Poly, MerkleTree<H>)> = Vec::new();
    let mut roots: Vec<FriHash> = Vec::new();
    let ghost mut e: nat = e0;
    while poly.len() > 1
        invariant
            wide_hasher(hasher),
            poly@.len() == pow2(e),
            layers@.len() == roots@.len(),
            layers@.len() + e == e0,
            all_layers == fri_layers(hasher, s0, 0),
            all_layers == Seq::new(layers@.len() as nat, |j: int| vals(layers@[j].0@)) + fri_layers(
                hasher,
                vals(poly@),
                layers@.len() as nat,
            ),
            fri_remainder(hasher, s0, 0) == fri_remainder(
                hasher,
                vals(poly@),
                layers@.len() as nat,
            ),
            forall|j: int|
                0 <= j < layers@.len() ==> #[trigger] roots@[j].val() == commit_root(
                    hasher,
                    vals(layers@[j].0@),
                ),
            forall|j: int|
                0 <= j < layers@.len() ==> (#[trigger] layers@[j]).1@ == merkle_layers(
                    hasher,
                    pad_leaves(vals(layers@[j].0@)),
                ),
        decreases poly@.len(),
    {
        proof {
            lemma_pow2_half_max(e);
        }
        let tree: MerkleTree<H> = match MerkleTree::new(hasher, poly.as_slice()) {
            Ok(t) => t,
            Err(err) => {
                return Err(err);
            },
        };
        let root: FpBabyBear = match tree.root() {
            Ok(x) => x,
            Err(err) => {
                return Err(err);
            },
        };
        let ghost cur = vals(poly@);
        let ghost k = layers@.len() as nat;
        let ghost old_layers = layers@;
        roots.push(root);
        let layer_poly: Poly = copy_poly(poly.as_slice());
        layers.push((layer_poly, tree));
        let alpha: FpBabyBear = compute_alpha(hasher, &root, layers.len());
        poly = fold_layer(poly.as_slice(), alpha);
        proof {
            lemma2_to64();
            lemma_pow2_unfold(e);
            assert(alpha.val() == layer_alpha(hasher, cur, k));
            assert(fri_layers(hasher, cur, k) == seq![cur] + fri_layers(
                hasher,
                vals(poly@),
                k + 1,
            ));
            assert(Seq::new(layers@.len() as nat, |j: int| vals(layers@[j].0@)) =~= Seq::new(
                k,
                |j: int| vals(old_layers[j].0@),
            ).push(cur));
            assert(all_layers =~= Seq::new(layers@.len() as nat, |j: int| vals(layers@[j].0@))
                + fri_layers(hasher, vals(poly@), layers@.len() as nat));
            e = (e - 1) as nat;
        }
    }
    let mut final_poly: Poly = poly;
    let ghost num_layers = layers@.len();
    proof {
        lemma2_to64();
        assert(e == 0);
        assert(fri_layers(hasher, vals(final_poly@), num_layers as nat).len() == 0);
        assert(all_layers =~= Seq::new(num_layers as nat, |j: int| vals(layers@[j].0@)));
    }
    match intt(&mut final_poly) {
        Ok(_) => {},
        Err(err) => {
            return Err(err);
        },
    }
    let ghost fin = vals(final_poly@);
    let ghost roots_v = vals(roots@);
    proof {
        assert(fin == fri_remainder(hasher, s0, 0));
        assert(roots_v =~= fri_roots(hasher, s0));
    }
    // query phase
    let query_indices: Vec<usize> = generate_query_indices(
        hasher,
        roots.as_slice(),
        final_poly.as_slice(),
        initial_domain_size,
        3,
    );
    let mut queries: Vec<FriQueryProof> = Vec::new();
    let mut q: usize = 0;
    while q < query_indices.len()
        invariant
            query_indices@.len() == 3,
            num_layers == layers@.len(),
            num_layers == e0,
            s0.len() == pow2(e0),
            all_layers == fri_layers(hasher, s0, 0),
            all_layers.len() == num_layers,
            forall|j: int| 0 <= j < e0 ==> #[trigger] all_layers[j].len() == pow2((e0 - j) as nat),
            forall|j: int| 0 <= j < num_layers ==> vals((#[trigger] layers@[j]).0@) == all_layers[j],
            forall|j: int|
                0 <= j < num_layers ==> (#[trigger] layers@[j]).1@ == merkle_layers(
                    hasher,
                    pad_leaves(all_layers[j]),
                ),
            num_layers > 0 ==> initial_domain_size <= s0.len(),
            initial_domain_size > 0,
            forall|i: int| 0 <= i < 3 ==> #[trigger] query_indices@[i] < initial_domain_size,
            forall|i: int|
                0 <= i < 3 ==> #[trigger] query_indices@[i] == query_index_spec(
                    hasher,
                    roots_v,
                    fin,
                    initial_domain_size as int,
                    i,
                ),
            q <= 3,
            queries@.len() == q,
            forall|qq: int|
                0 <= qq < q ==> {
                    let ops = #[trigger] queries@[qq].layer_proofs@;
                    &&& ops.len() == num_layers
                    &&& forall|j: int|
                        0 <= j < num_layers ==> opening_matches(
                            hasher,
                            all_layers[j],
                            query_indices@[qq] as int / pow2(j as nat) as int,
                            #[trigger] ops[j],
                        )
                },
        decreases 3 - q,
    {
        let initial_idx: usize = query_indices[q];
        let mut layer_proofs: Vec<(MerkleProof, (FpBabyBear, FpBabyBear), MerkleProof)> = Vec::new();
        let mut current_idx: usize = initial_idx;
        let mut j: usize = 0;
        proof {
            lemma2_to64();
            assert(initial_idx as int / 1 == initial_idx);
        }
        while j < layers.len()
            invariant
                num_layers == layers@.len(),
                num_layers == e0,
                s0.len() == pow2(e0),
                all_layers.len() == num_layers,
                forall|j: int| 0 <= j < e0 ==> #[trigger] all_layers[j].len() == pow2((e0 - j) as nat),
                forall|j: int| 0 <= j < num_layers ==> vals((#[trigger] layers@[j]).0@) == all_layers[j],
                forall|j: int|
                    0 <= j < num_layers ==> (#[trigger] layers@[j]).1@ == merkle_layers(
                        hasher,
                        pad_leaves(all_layers[j]),
                    ),
                num_layers > 0 ==> initial_idx < s0.len(),
                j <= num_layers,
                current_idx == initial_idx as int / pow2(j as nat) as int,
                j < num_layers ==> current_idx < all_layers[j as int].len(),
                layer_proofs@.len() == j,
                forall|jj: int|
                    0 <= jj < j ==> opening_matches(
                        hasher,
                        all_layers[jj],
                        initial_idx as int / pow2(jj as nat) as int,
                        #[trigger] layer_proofs@[jj],
                    ),
            decreases num_layers - j,
        {
            let lpoly: &Poly = &layers[j].0;
            let tree: &MerkleTree<H> = &layers[j].1;
            let ghost layer = all_layers[j as int];
            proof {
                lemma_pow2_unfold((e0 - j) as nat);
                lemma_pow2_pos((e0 - j - 1) as nat);
                lemma_xor_one(current_idx);
                lemma_next_pow2_ge(layer.len());
                assert(tree@[0] == pad_leaves(layer));
            }
            let sibling_idx: usize = current_idx ^ 1;
            proof {
                assert(sibling_idx == sibling(current_idx as int));
                assert(sibling_idx < layer.len());
            }
            let val: FpBabyBear = lpoly[current_idx];
            let sibling_val: FpBabyBear = lpoly[sibling_idx];
            proof {
                assert(vals(lpoly@)[current_idx as int] == val.val());
                assert(vals(lpoly@)[sibling_idx as int] == sibling_val.val());
            }
            let val_proof: MerkleProof = match tree.prove(current_idx) {
                Ok(x) => x,
                Err(err) => {
                    return Err(err);
                },
            };
            let sibling_proof: MerkleProof = match tree.prove(sibling_idx) {
                Ok(x) => x,
                Err(err) => {
                    return Err(err);
                },
            };
            layer_proofs.push((val_proof, (val, sibling_val), sibling_proof));
            proof {
                lemma_pow2_unfold((j + 1) as nat);
                lemma_pow2_pos(j as nat);
                lemma_div_denominator(initial_idx as int, pow2(j as nat) as int, 2);
                lemma_mul_is_commutative(pow2(j as nat) as int, 2);
                if j + 1 < num_layers {
                    lemma_pow2_unfold((e0 - j - 1) as nat);
                }
            }
            current_idx = current_idx / 2;
            j = j + 1;
        }
        queries.push(FriQueryProof { layer_proofs });
        q = q + 1;
    }
    let commitment: FriCommitment = FriCommitment { roots, final_poly };
    let proof: FriProof = FriProof { commitments: vec![commitment], queries };
    proof {
        assert(proof.commitments@[0] == commitment);
    }
    Ok(proof)
}

/// The two values of a pair, ordered by the parity of the position `i` of the first,
/// folded with `alpha`.
pub open spec fn fold_pair(val: int, sib: int, i: int, alpha: int) -> int {
    if i % 2 == 0 {
        (val + alpha * sib) % p()
    } else {
        (sib + alpha * val) % p()
    }
}

/// The value that the opening `ops[j]` of a query at `idx` leads the verifier to expect
/// in layer j + 1.
pub open spec fn expected_after<H: Hasher>(
    h: &H,
    roots: Seq<int>,
    ops: Seq<(MerkleProof, (FpBabyBear, FpBabyBear), MerkleProof)>,
    idx: int,
    j: int,
) -> int {
    fold_pair(
        ops[j].1.0.val(),
        ops[j].1.1.val(),
        idx / pow2(j as nat) as int,
        alpha_spec(h, roots[j], j + 1),
    )
}

/// The first check on layer j of a query at `idx` that fails, if one does: the layer has
/// a root, both paths lead to it, and the opened value is the one the previous layer
/// folds to.
pub open spec fn layer_error<H: Hasher>(
    h: &H,
    roots: Seq<int>,
    ops: Seq<(MerkleProof, (FpBabyBear, FpBabyBear), MerkleProof)>,
    idx: int,
    j: int,
) -> Option<StarkError> {
    let i = idx / pow2(j as nat) as int;
    let o = ops[j];
    if j >= roots.len() {
        Some(StarkError::MissingRoot)
    } else if path_root(h, o.1.0.val(), i, vals(o.0.siblings@)) != roots[j] {
        Some(StarkError::InvalidMerkleProof)
    } else if path_root(h, o.1.1.val(), sibling(i), vals(o.2.siblings@)) != roots[j] {
        Some(StarkError::InvalidMerkleProof)
    } else if j > 0 && o.1.0.val() != expected_after(h, roots, ops, idx, j - 1) {
        Some(StarkError::FoldingMismatch)
    } else {
        None
    }
}

/// The first failing check among layers j, j + 1, ... of a query at `idx`.
pub open spec fn first_layer_error<H: Hasher>(
    h: &H,
    roots: Seq<int>,
    ops: Seq<(MerkleProof, (FpBabyBear, FpBabyBear), MerkleProof)>,
    idx: int,
    j: nat,
) -> Option<StarkError>
    decreases ops.len() - j,
{
    if j >= ops.len() {
        None
    } else if layer_error(h, roots, ops, idx, j as int) is Some {
        layer_error(h, roots, ops, idx, j as int)
    } else {
        first_layer_error(h, roots, ops, idx, j + 1)
    }
}

/// Point `i` of the subgroup whose order is `n` rounded up to a power of two.
pub open spec fn final_point(n: nat, i: int) -> int {
    pow(root_of_unity_spec(log2_spec(next_pow2_spec(n) as int)), i as nat) % p()
}

/// The check closing a query at `idx` whose layers all pass: the final polynomial, at
/// the position reached, takes the value that the last layer folds to.
pub open spec fn final_error<H: Hasher>(
    h: &H,
    roots: Seq<int>,
    fin: Seq<int>,
    ops: Seq<(MerkleProof, (FpBabyBear, FpBabyBear), MerkleProof)>,
    idx: int,
) -> Option<StarkError> {
    let l = ops.len();
    if l == 0 {
        None
    } else if fin.len() > 0x800_0000 {
        Some(StarkError::DomainTooLarge)
    } else if poly_value(fin, final_point(fin.len(), idx / pow2(l) as int)) % p()
        != expected_after(h, roots, ops, idx, l - 1) {
        Some(StarkError::FinalEvaluationMismatch)
    } else {
        None
    }
}

/// The first failing check of a query at `idx`.
pub open spec fn query_error<H: Hasher>(
    h: &H,
    roots: Seq<int>,
    fin: Seq<int>,
    ops: Seq<(MerkleProof, (FpBabyBear, FpBabyBear), MerkleProof)>,
    idx: int,
) -> Option<StarkError> {
    if first_layer_error(h, roots, ops, idx, 0) is Some {
        first_layer_error(h, roots, ops, idx, 0)
    } else {
        final_error(h, roots, fin, ops, idx)
    }
}

/// The first failing check among queries i, i + 1, ...: a query beyond the derived
/// positions fails at once.
pub open spec fn first_query_error<H: Hasher>(
    h: &H,
    roots: Seq<int>,
    fin: Seq<int>,
    queries: Seq<FriQueryProof>,
    domain_size: int,
    num_queries: int,
    i: nat,
) -> Option<StarkError>
    decreases queries.len() - i,
{
    if i >= queries.len() {
        None
    } else if i >= num_queries {
        Some(StarkError::MissingQueryIndex)
    } else {
        let e = query_error(
            h,
            roots,
            fin,
            queries[i as int].layer_proofs@,
            query_index_spec(h, roots, fin, domain_size, i as int),
        );
        if e is Some {
            e
        } else {
            first_query_error(h, roots, fin, queries, domain_size, num_queries, i + 1)
        }
    }
}

/// The index of the last nonzero coefficient, or zero when there is none.
pub open spec fn degree_spec(s: Seq<int>) -> nat
    decreases s.len(),
{
    if s.len() == 0 {
        0
    } else if s.last() != 0 {
        (s.len() - 1) as nat
    } else {
        degree_spec(s.drop_last())
    }
}

/// What the verifier answers for `proof`: the first failing check, in the order queries,
/// layers, final value, then the degree bound; acceptance when none fails.
pub open spec fn fri_verify_spec<H: Hasher>(
    h: &H,
    proof: FriProof,
    max_degree: usize,
    domain_size: int,
    num_queries: int,
) -> Result<bool, StarkError> {
    if proof.commitments@.len() == 0 {
        Err(StarkError::MissingCommitment)
    } else {
        let c = proof.commitments@[0];
        let roots = vals(c.roots@);
        let fin = vals(c.final_poly@);
        let e = first_query_error(h, roots, fin, proof.queries@, domain_size, num_queries, 0);
        match e {
            Some(err) => Err(err),
            None => {
                if degree_spec(fin) > (max_degree >> (c.roots@.len() as usize)) {
                    Err(StarkError::FinalDegreeTooHigh)
                } else {
                    Ok(true)
                }
            },
        }
    }
}

/// The index of the last nonzero coefficient, or zero when there is none.
fn degree(poly: &[FpBabyBear]) -> (r: usize)
    ensures
        r == degree_spec(vals(poly@)),
{
    let mut i: usize = poly.len();
    proof {
        assert(vals(poly@).subrange(0, i as int) =~= vals(poly@));
    }
    while i > 0
        invariant
            i <= poly@.len(),
            degree_spec(vals(poly@)) == degree_spec(vals(poly@).subrange(0, i as int)),
        decreases i,
    {
        let ghost sub = vals(poly@).subrange(0, i as int);
        if !poly[i - 1].is_zero() {
            proof {
                assert(sub.last() == poly@[i - 1].val());
            }
            return i - 1;
        }
        proof {
            assert(sub.drop_last() =~= vals(poly@).subrange(0, i - 1));
        }
        i = i - 1;
    }
    0
}

/// `left + alpha * right` in the field.
fn fold_values(left: FpBabyBear, right: FpBabyBear, alpha: FpBabyBear) -> (r: FpBabyBear)
    ensures
        r.val() == (left.val() + alpha.val() * right.val()) % p(),
{
    let r: FpBabyBear = left.add(alpha.mul(right));
    proof {
        lemma_add_mod_noop(left.val(), alpha.val() * right.val(), p());
        lemma_mod_twice(alpha.val() * right.val(), p());
        lemma_small_mod(left.val() as nat, p() as nat);
        lemma_add_mod_noop(left.val(), (alpha.val() * right.val()) % p(), p());
    }
    r
}

/// Checks a FRI proof: every query's openings must lie on the committed Merkle trees and
/// fold consistently into the final polynomial, whose degree must stay within
/// `max_degree` halved once per folding. Answers `Ok(true)`, or the first failure.
pub fn fri_verify<H: Hasher>(
    proof: &FriProof,
    max_degree: usize,
    initial_domain_size: usize,
    num_queries: usize,
    hasher: &H,
) -> (r: Result<bool, StarkError>)
    requires
        num_queries > 0 ==> wide_hasher(hasher),
        num_queries > 0 ==> initial_domain_size > 0,
        proof.commitments@.len() > 0 ==> proof.commitments@[0].roots@.len() < usize::BITS,
    ensures
        r == fri_verify_spec(
            hasher,
            *proof,
            max_degree,
            initial_domain_size as int,
            num_queries as int,
        ),
{
    if proof.commitments.len() == 0 {
        return Err(StarkError::MissingCommitment);
    }
    let commitment: &FriCommitment = &proof.commitments[0];
    let ghost roots = vals(commitment.roots@);
    let ghost fin = vals(commitment.final_poly@);
    let ghost dsz = initial_domain_size as int;
    let ghost nqs = num_queries as int;
    let ghost queries = proof.queries@;
    let query_indices: Vec<usize> = generate_query_indices(
        hasher,
        commitment.roots.as_slice(),
        commitment.final_poly.as_slice(),
        initial_domain_size,
        num_queries,
    );
    let nq: usize = proof.queries.len();
    let mut i: usize = 0;
    while i < nq
        invariant
            nq == queries.len(),
            queries == proof.queries@,
            proof.commitments@.len() > 0,
            *commitment == proof.commitments@[0],
            roots == vals(commitment.roots@),
            fin == vals(commitment.final_poly@),
            query_indices@.len() == num_queries,
            forall|k: int|
                0 <= k < num_queries ==> #[trigger] query_indices@[k] == query_index_spec(
                    hasher,
                    roots,
                    fin,
                    dsz,
                    k,
                ),
            i <= nq,
            dsz == initial_domain_size as int,
            nqs == num_queries as int,
            first_query_error(hasher, roots, fin, queries, dsz, nqs, 0) == first_query_error(
                hasher,
                roots,
                fin,
                queries,
                dsz,
                nqs,
                i as nat,
            ),
        decreases nq - i,
    {
        if i >= query_indices.len() {
            return Err(StarkError::MissingQueryIndex);
        }
        let idx0: usize = query_indices[i];
        let query: &FriQueryProof = &proof.queries[i];
        let ghost ops = query.layer_proofs@;
        let mut current_idx: usize = idx0;
        let mut expected: Option<FpBabyBear> = None;
        let nl: usize = query.layer_proofs.len();
        let mut j: usize = 0;
        proof {
            lemma2_to64();
            assert(idx0 as int / 1 == idx0);
        }
        while j < nl
            invariant
                nl == ops.len(),
                ops == query.layer_proofs@,
                roots == vals(commitment.roots@),
                nq == queries.len(),
                queries == proof.queries@,
                proof.commitments@.len() > 0,
                *commitment == proof.commitments@[0],
                fin == vals(commitment.final_poly@),
                dsz == initial_domain_size as int,
                nqs == num_queries as int,
                i < nq,
                i < num_queries,
                *query == queries[i as int],
                idx0 == query_index_spec(hasher, roots, fin, dsz, i as int),
                first_query_error(hasher, roots, fin, queries, dsz, nqs, 0) == first_query_error(
                    hasher,
                    roots,
                    fin,
                    queries,
                    dsz,
                    nqs,
                    i as nat,
                ),
                j <= nl,
                current_idx == idx0 as int / pow2(j as nat) as int,
                j == 0 ==> expected is None,
                j > 0 ==> (expected matches Some(x) && x.val() == expected_after(
                    hasher,
                    roots,
                    ops,
                    idx0 as int,
                    j - 1,
                )),
                first_layer_error(hasher, roots, ops, idx0 as int, 0) == first_layer_error(
                    hasher,
                    roots,
                    ops,
                    idx0 as int,
                    j as nat,
                ),
            decreases nl - j,
        {
            let val_proof: &MerkleProof = &query.layer_proofs[j].0;
            let val: FpBabyBear = query.layer_proofs[j].1.0;
            let sibling_val: FpBabyBear = query.layer_proofs[j].1.1;
            let sibling_proof: &MerkleProof = &query.layer_proofs[j].2;
            if j >= commitment.roots.len() {
                return Err(StarkError::MissingRoot);
            }
            let root: FpBabyBear = commitment.roots[j];
            let alpha: FpBabyBear = compute_alpha(hasher, &root, j + 1);
            let sibling_idx: usize = current_idx ^ 1;
            proof {
                lemma_xor_one(current_idx);
                assert(roots[j as int] == root.val());
            }
            let val_ok: bool = match MerkleTree::<H>::verify(
                hasher,
                &root,
                &val,
                current_idx,
                val_proof,
            ) {
                Ok(b) => b,
                Err(err) => {
                    return Err(err);
                },
            };
            if !val_ok {
                return Err(StarkError::InvalidMerkleProof);
            }
            let sibling_ok: bool = match MerkleTree::<H>::verify(
                hasher,
                &root,
                &sibling_val,
                sibling_idx,
                sibling_proof,
            ) {
                Ok(b) => b,
                Err(err) => {
                    return Err(err);
                },
            };
            if !sibling_ok {
                return Err(StarkError::InvalidMerkleProof);
            }
            match expected {
                Some(x) => {
                    if val != x {
                        return Err(StarkError::FoldingMismatch);
                    }
                },
                None => {},
            }
            let next: FpBabyBear = if current_idx % 2 == 0 {
                fold_values(val, sibling_val, alpha)
            } else {
                fold_values(sibling_val, val, alpha)
            };
            expected = Some(next);
            proof {
                assert(layer_error(hasher, roots, ops, idx0 as int, j as int) is None);
                lemma_pow2_unfold((j + 1) as nat);
                lemma_pow2_pos(j as nat);
                lemma_div_denominator(idx0 as int, pow2(j as nat) as int, 2);
                lemma_mul_is_commutative(pow2(j as nat) as int, 2);
            }
            current_idx = current_idx / 2;
            j = j + 1;
        }
        match expected {
            Some(x) => {
                let final_domain: EvaluationDomain = match EvaluationDomain::new(
                    commitment.final_poly.len(),
                ) {
                    Some(d) => d,
                    None => {
                        return Err(StarkError::DomainTooLarge);
                    },
                };
                let point: FpBabyBear = final_domain.element(current_idx);
                proof {
                    lemma_pow2_injective(
                        log2_spec(next_pow2_spec(fin.len()) as int),
                        final_domain.log_size as nat,
                    );
                    lemma_mod_twice(pow(final_domain.group_gen.val(), current_idx as nat), p());
                    assert(point.val() == final_point(fin.len(), current_idx as int));
                }
                let final_eval: FpBabyBear = eval(commitment.final_poly.as_slice(), point);
                if final_eval != x {
                    return Err(StarkError::FinalEvaluationMismatch);
                }
            },
            None => {},
        }
        proof {
            assert(query_error(hasher, roots, fin, ops, idx0 as int) is None);
        }
        i = i + 1;
    }
    let num_foldings: usize = commitment.roots.len();
    let max_allowed_degree: usize = max_degree >> num_foldings;
    let final_degree: usize = degree(commitment.final_poly.as_slice());
    if final_degree > max_allowed_degree {
        return Err(StarkError::FinalDegreeTooHigh);
    }
    Ok(true)
}

/// Folding keeps values reduced modulo p.
proof fn lemma_layers_reduced<H: Hasher>(h: &H, s: Seq<int>, k: nat, e: nat)
    requires
        s.len() == pow2(e),
        forall|i: int| 0 <= i < s.len() ==> 0 <= #[trigger] s[i] < p(),
    ensures
        forall|j: int, i: int|
            0 <= j < e && 0 <= i < fri_layers(h, s, k)[j].len() ==> 0 <= #[trigger] fri_layers(
                h,
                s,
                k,
            )[j][i] < p(),
        forall|i: int|
            0 <= i < fri_remainder(h, s, k).len() ==> 0 <= #[trigger] fri_remainder(h, s, k)[i]
                < p(),
    decreases e,
{
    lemma_fri_shape(h, s, k, e);
    if e > 0 {
        lemma2_to64();
        lemma_pow2_unfold(e);
        lemma_pow2_pos((e - 1) as nat);
        let t = fold_spec(s, layer_alpha(h, s, k));
        assert(t.len() == pow2((e - 1) as nat));
        lemma_layers_reduced(h, t, k + 1, (e - 1) as nat);
        let ls = fri_layers(h, s, k);
        assert(ls == seq![s] + fri_layers(h, t, k + 1));
        assert forall|j: int, i: int| 0 <= j < e && 0 <= i < ls[j].len() implies 0 <= #[trigger] ls[j][i]
            < p() by {
            if j > 0 {
                assert(ls[j] == fri_layers(h, t, k + 1)[j - 1]);
            }
        }
    }
}

/// `idx / 2^j` stays below 2^(e - j) when `idx` is below 2^e.
proof fn lemma_index_in_layer(idx: int, e: nat, j: nat)
    requires
        0 <= idx < pow2(e),
        j <= e,
    ensures
        0 <= idx / (pow2(j) as int) < pow2((e - j) as nat),
{
    lemma_pow2_adds((e - j) as nat, j);
    lemma_pow2_pos(j);
    lemma_mul_is_commutative(pow2((e - j) as nat) as int, pow2(j) as int);
    lemma_multiply_divide_lt(idx, pow2(j) as int, pow2((e - j) as nat) as int);
    lemma_div_pos_is_pos(idx, pow2(j) as int);
}

/// The openings of an honest query pass every layer check from layer `j` on.
proof fn lemma_layers_pass<H: Hasher>(
    h: &H,
    s: Seq<int>,
    e: nat,
    ops: Seq<(MerkleProof, (FpBabyBear, FpBabyBear), MerkleProof)>,
    idx: int,
    j: nat,
)
    requires
        s.len() == pow2(e),
        e > 0 ==> 0 <= idx < s.len(),
        ops.len() == e,
        forall|jj: int|
            0 <= jj < e ==> opening_matches(
                h,
                fri_layers(h, s, 0)[jj],
                idx / pow2(jj as nat) as int,
                #[trigger] ops[jj],
            ),
        j <= e,
    ensures
        first_layer_error(h, fri_roots(h, s), ops, idx, j) is None,
    decreases e - j,
{
    if j < e {
        lemma_layers_pass(h, s, e, ops, idx, j + 1);
        lemma_layer_passes(h, s, e, ops, idx, j);
    }
}

/// Both paths of an honest opening lead to the layer's root.
proof fn lemma_opening_paths<H: Hasher>(
    h: &H,
    layer: Seq<int>,
    i: int,
    o: (MerkleProof, (FpBabyBear, FpBabyBear), MerkleProof),
)
    requires
        opening_matches(h, layer, i, o),
        0 <= i < layer.len(),
        layer.len() % 2 == 0,
    ensures
        path_root(h, o.1.0.val(), i, vals(o.0.siblings@)) == commit_root(h, layer),
        path_root(h, o.1.1.val(), sibling(i), vals(o.2.siblings@)) == commit_root(h, layer),
{
    lemma_next_pow2_ge(layer.len());
    assert(0 <= sibling(i) < layer.len());
    lemma_merkle_completeness(h, layer, i);
    lemma_merkle_completeness(h, layer, sibling(i));
    assert(pad_leaves(layer)[i] == layer[i]);
    assert(pad_leaves(layer)[sibling(i)] == layer[sibling(i)]);
}

/// Folding the pair at `i` gives entry `i / 2` of the folded layer.
proof fn lemma_fold_pair(prev: Seq<int>, alpha: int, i: int)
    requires
        0 <= i < prev.len(),
        prev.len() % 2 == 0,
    ensures
        0 <= sibling(i) < prev.len(),
        fold_pair(prev[i], prev[sibling(i)], i, alpha) == fold_spec(prev, alpha)[i / 2],
{
    lemma_fundamental_div_mod(i, 2);
}

/// The openings of an honest query pass the checks of layer `j`.
proof fn lemma_layer_passes<H: Hasher>(
    h: &H,
    s: Seq<int>,
    e: nat,
    ops: Seq<(MerkleProof, (FpBabyBear, FpBabyBear), MerkleProof)>,
    idx: int,
    j: nat,
)
    requires
        s.len() == pow2(e),
        0 <= idx < s.len(),
        ops.len() == e,
        forall|jj: int|
            0 <= jj < e ==> opening_matches(
                h,
                fri_layers(h, s, 0)[jj],
                idx / pow2(jj as nat) as int,
                #[trigger] ops[jj],
            ),
        j < e,
    ensures
        layer_error(h, fri_roots(h, s), ops, idx, j as int) is None,
{
    lemma_fri_shape(h, s, 0, e);
    let layers = fri_layers(h, s, 0);
    let roots = fri_roots(h, s);
    let layer = layers[j as int];
    let i = idx / pow2(j) as int;
    let o = ops[j as int];
    assert(0 <= i < layer.len() && layer.len() % 2 == 0) by {
        lemma2_to64();
        lemma_index_in_layer(idx, e, j);
        lemma_pow2_unfold((e - j) as nat);
        lemma_pow2_pos((e - j - 1) as nat);
    }
    assert(opening_matches(h, layer, i, o));
    lemma_opening_paths(h, layer, i, o);
    assert(roots[j as int] == commit_root(h, layer));
    if j > 0 {
        let pj = (j - 1) as nat;
        let prev = layers[pj as int];
        let i2 = idx / pow2(pj) as int;
        assert(i == i2 / 2) by {
            lemma_pow2_unfold(j);
            lemma_pow2_pos(pj);
            lemma_div_denominator(idx, pow2(pj) as int, 2);
            lemma_mul_is_commutative(pow2(pj) as int, 2);
        }
        assert(0 <= i2 < prev.len() && prev.len() % 2 == 0) by {
            lemma2_to64();
            lemma_index_in_layer(idx, e, pj);
            lemma_pow2_unfold((e - pj) as nat);
            lemma_pow2_pos((e - pj - 1) as nat);
        }
        assert(layer == fold_spec(prev, layer_alpha(h, prev, pj)));
        assert(roots[pj as int] == commit_root(h, prev));
        assert(opening_matches(h, prev, i2, ops[pj as int]));
        lemma_fold_pair(prev, layer_alpha(h, prev, pj), i2);
        assert(o.1.0.val() == expected_after(h, roots, ops, idx, j - 1));
    }
}

/// An honest query passes all its checks.
#[verifier::spinoff_prover]
proof fn lemma_query_passes<H: Hasher>(
    h: &H,
    s: Seq<int>,
    e: nat,
    ops: Seq<(MerkleProof, (FpBabyBear, FpBabyBear), MerkleProof)>,
    idx: int,
)
    requires
        s.len() == pow2(e),
        forall|i: int| 0 <= i < s.len() ==> 0 <= #[trigger] s[i] < p(),
        e > 0 ==> 0 <= idx < s.len(),
        ops.len() == e,
        forall|jj: int|
            0 <= jj < e ==> opening_matches(
                h,
                fri_layers(h, s, 0)[jj],
                idx / pow2(jj as nat) as int,
                #[trigger] ops[jj],
            ),
    ensures
        query_error(h, fri_roots(h, s), fri_remainder(h, s, 0), ops, idx) is None,
{
    lemma_layers_pass(h, s, e, ops, idx, 0);
    if e > 0 {
        lemma_fri_shape(h, s, 0, e);
        lemma_layers_reduced(h, s, 0, e);
        lemma2_to64();
        let layers = fri_layers(h, s, 0);
        let roots = fri_roots(h, s);
        let fin = fri_remainder(h, s, 0);
        let pj = (e - 1) as nat;
        let prev = layers[pj as int];
        let i2 = idx / pow2(pj) as int;
        lemma_index_in_layer(idx, e, pj);
        lemma_index_in_layer(idx, e, e);
        lemma_pow2_unfold(e);
        lemma_pow2_pos(pj);
        lemma_div_denominator(idx, pow2(pj) as int, 2);
        lemma_mul_is_commutative(pow2(pj) as int, 2);
        assert(i2 / 2 == idx / pow2(e) as int);
        assert(idx / pow2(e) as int == 0);
        assert(prev.len() == 2);
        assert(fin == fold_spec(prev, layer_alpha(h, prev, pj)));
        assert(roots[pj as int] == commit_root(h, prev));
        assert(opening_matches(h, prev, i2, ops[pj as int]));
        lemma_fundamental_div_mod(i2, 2);
        assert(expected_after(h, roots, ops, idx, e - 1) == fin[0]);
        let t = final_point(fin.len(), idx / pow2(e) as int);
        reveal_with_fuel(crate::fft_laws::fsum, 2);
        lemma_pow0(t);
        assert(poly_value(fin, t) == fin[0]);
        lemma_small_mod(fin[0] as nat, p() as nat);
    }
}

/// Every honest query from `q` on passes.
proof fn lemma_queries_pass<H: Hasher>(
    h: &H,
    s: Seq<int>,
    e: nat,
    domain_size: int,
    pf: FriProof,
    q: nat,
    nq: int,
)
    requires
        s.len() == pow2(e),
        forall|i: int| 0 <= i < s.len() ==> 0 <= #[trigger] s[i] < p(),
        0 < domain_size,
        e > 0 ==> domain_size <= s.len(),
        is_honest_fri_proof(h, s, domain_size, pf),
        q <= 3,
        nq >= 3,
    ensures
        first_query_error(
            h,
            fri_roots(h, s),
            fri_remainder(h, s, 0),
            pf.queries@,
            domain_size,
            nq,
            q,
        ) is None,
    decreases 3 - q,
{
    if q < 3 {
        lemma_queries_pass(h, s, e, domain_size, pf, q + 1, nq);
        lemma_fri_shape(h, s, 0, e);
        let roots = fri_roots(h, s);
        let fin = fri_remainder(h, s, 0);
        let ops = pf.queries@[q as int].layer_proofs@;
        let idx = query_index_spec(h, roots, fin, domain_size, q as int);
        let v = ((le_bytes_value(h.spec_hash(query_seed(h, roots, fin, q as int)).subrange(0, 8))
            as u64) as usize) as int;
        lemma_mod_bound(v, domain_size);
        lemma_query_passes(h, s, e, ops, idx);
    }
}

/// FRI completeness: the proof that the prover gives for values of power-of-two length
/// is accepted by the verifier that derives its positions over the same domain size with
/// at least the three queries that the prover answers, whatever the degree bound; and it
/// has few enough layers for the verifier's degree check.
pub proof fn lemma_fri_completeness<H: Hasher>(
    h: &H,
    s: Seq<int>,
    domain_size: int,
    pf: FriProof,
    max_degree: usize,
    num_queries: int,
)
    requires
        num_queries >= 3,
        is_pow2(s.len()),
        s.len() <= usize::MAX,
        forall|i: int| 0 <= i < s.len() ==> 0 <= #[trigger] s[i] < p(),
        0 < domain_size,
        s.len() > 1 ==> domain_size <= s.len(),
        is_honest_fri_proof(h, s, domain_size, pf),
    ensures
        pf.commitments@[0].roots@.len() < usize::BITS,
        fri_verify_spec(h, pf, max_degree, domain_size, num_queries) == Ok::<bool, StarkError>(true),
{
    let e = choose|k: nat| pow2(k) == s.len();
    lemma_fri_shape(h, s, 0, e);
    lemma_layers_reduced(h, s, 0, e);
    lemma2_to64();
    if e > 0 {
        lemma_pow2_strictly_increases(0, e);
    }
    lemma_queries_pass(h, s, e, domain_size, pf, 0, num_queries);
    let fin = fri_remainder(h, s, 0);
    assert(fin.len() == 1);
    assert(degree_spec(fin) == 0) by {
        if fin.last() == 0 {
            assert(degree_spec(fin.drop_last()) == 0);
        }
    }
    lemma_layer_count(e);
}

/// A power of two up to usize::MAX has fewer bits than usize.
proof fn lemma_layer_count(e: nat)
    requires
        pow2(e) <= usize::MAX,
    ensures
        e < usize::BITS,
{
    lemma2_to64();
    lemma2_to64_rest();
    assert(usize::BITS == 32 && usize::MAX == 0xffff_ffff || usize::BITS == 64 && usize::MAX
        == 0xffff_ffff_ffff_ffff);
    if e >= usize::BITS {
        if e > usize::BITS {
            lemma_pow2_strictly_increases(usize::BITS as nat, e);
        }
    }
}

} // verus!
