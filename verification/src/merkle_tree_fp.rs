//! Binary Merkle trees over field elements.
use crate::error::StarkError;
use crate::field_babybear::{le_bytes_value, lemma_vals_push, p, vals, FpBabyBear};
use crate::poly::coef;
use std::marker::PhantomData;
use vstd::arithmetic::div_mod::*;
use vstd::arithmetic::mul::*;
use vstd::arithmetic::power2::*;
use vstd::prelude::*;

verus! {

broadcast use FpBabyBear::lemma_val_range;

/// A hash function from field elements to bytes.
pub trait Hasher {
    /// What `hash` returns on inputs with the given values.
    spec fn spec_hash(&self, input: Seq<int>) -> Seq<u8>;

    fn hash(&self, input: &[FpBabyBear]) -> (out: Vec<u8>)
        ensures
            out@ == self.spec_hash(vals(input@)),
    ;
}

/// The field element that the hash of the pair `(a, b)` reduces to.
pub open spec fn hash_pair<H: Hasher>(h: &H, a: int, b: int) -> int {
    le_bytes_value(h.spec_hash(seq![a, b])) as int % p()
}

/// The layer above `layer`: each pair of neighbours hashed into one node.
pub open spec fn next_layer<H: Hasher>(h: &H, layer: Seq<int>) -> Seq<int> {
    Seq::new(layer.len() / 2, |j: int| hash_pair(h, layer[2 * j], layer[2 * j + 1]))
}

/// All layers from `layer` up to the root layer (of at most one node).
pub open spec fn merkle_layers<H: Hasher>(h: &H, layer: Seq<int>) -> Seq<Seq<int>>
    decreases layer.len(),
{
    if layer.len() <= 1 {
        seq![layer]
    } else {
        seq![layer] + merkle_layers(h, next_layer(h, layer))
    }
}

/// The smallest power of two that is at least `n`.
pub open spec fn next_pow2_spec(n: nat) -> nat
    decreases n,
{
    if n <= 1 {
        1
    } else {
        2 * next_pow2_spec(((n + 1) / 2) as nat)
    }
}

/// The leaves padded with zeros to a power-of-two count (a single zero when empty).
pub open spec fn pad_leaves(leaves: Seq<int>) -> Seq<int> {
    if leaves.len() == 0 {
        seq![0]
    } else {
        Seq::new(next_pow2_spec(leaves.len()), |i: int| coef(leaves, i))
    }
}

/// The authentication path of leaf `idx` through `layers` (all but the root layer).
pub open spec fn merkle_path(layers: Seq<Seq<int>>, idx: int) -> Seq<int> {
    Seq::new(
        (layers.len() - 1) as nat,
        |k: int| layers[k][sibling(idx / pow2(k as nat) as int)],
    )
}

/// The neighbour of a node in its pair.
pub open spec fn sibling(idx: int) -> int {
    if idx % 2 == 0 {
        idx + 1
    } else {
        idx - 1
    }
}

/// The root reached by hashing `cur` at position `idx` up along `sibs`.
pub open spec fn path_root<H: Hasher>(h: &H, cur: int, idx: int, sibs: Seq<int>) -> int
    decreases sibs.len(),
{
    if sibs.len() == 0 {
        cur
    } else {
        let next = if idx % 2 == 0 {
            hash_pair(h, cur, sibs[0])
        } else {
            hash_pair(h, sibs[0], cur)
        };
        path_root(h, next, idx / 2, sibs.drop_first())
    }
}

/// The siblings along the path from a leaf to the root.
#[derive(Debug)]
pub struct MerkleProof {
    pub siblings: Vec<FpBabyBear>,
}

/// A Merkle tree: the padded leaves and every layer above them.
#[derive(Debug)]
pub struct MerkleTree<H: Hasher> {
    layers: Vec<Vec<FpBabyBear>>,
    _phantom: PhantomData<H>,
}

impl<H: Hasher> View for MerkleTree<H> {
    type V = Seq<Seq<int>>;

    closed spec fn view(&self) -> Seq<Seq<int>> {
        self.layers@.map_values(|l: Vec<FpBabyBear>| vals(l@))
    }
}

/// Every layer is twice as long as the one above, up to a root layer of one node.
pub open spec fn halving_shape(ls: Seq<Seq<int>>) -> bool {
    &&& ls.len() >= 1
    &&& ls.last().len() == 1
    &&& forall|k: int| 0 <= k < ls.len() - 1 ==> #[trigger] ls[k].len() == 2 * ls[k + 1].len()
}

pub open spec fn is_pow2(n: nat) -> bool {
    exists|k: nat| pow2(k) == n
}

proof fn lemma_layers_shape<H: Hasher>(h: &H, layer: Seq<int>, k: nat)
    requires
        layer.len() == pow2(k),
    ensures
        halving_shape(merkle_layers(h, layer)),
        merkle_layers(h, layer)[0] == layer,
    decreases k,
{
    lemma_pow2_pos(k);
    if k == 0 {
        lemma2_to64();
    } else {
        lemma_pow2_unfold(k);
        let up = next_layer(h, layer);
        lemma_layers_shape(h, up, (k - 1) as nat);
        let rest = merkle_layers(h, up);
        let ls = merkle_layers(h, layer);
        assert(ls == seq![layer] + rest);
        assert forall|j: int| 0 <= j < ls.len() - 1 implies #[trigger] ls[j].len() == 2 * ls[j
            + 1].len() by {
            if j > 0 {
                assert(ls[j] == rest[j - 1]);
                assert(ls[j + 1] == rest[j]);
            }
        }
    }
}

/// The loop that doubles `m` from 1 while below `n` stops at the next power of two.
pub(crate) proof fn lemma_next_pow2(n: nat, m: nat, k: nat)
    requires
        m == pow2(k),
        n <= m,
        k > 0 ==> pow2((k - 1) as nat) < n,
    ensures
        next_pow2_spec(n) == m,
    decreases k,
{
    lemma2_to64();
    if k == 0 {
    } else {
        lemma_pow2_unfold(k);
        lemma_pow2_pos((k - 1) as nat);
        if k == 1 {
            assert(next_pow2_spec(n) == 2 * next_pow2_spec(((n + 1) / 2) as nat));
            assert(next_pow2_spec(1) == 1);
        } else {
            lemma_pow2_unfold((k - 1) as nat);
            lemma_next_pow2(((n + 1) / 2) as nat, pow2((k - 1) as nat), (k - 1) as nat);
        }
    }
}

/// `x ^ 1` flips the lowest bit.
pub(crate) proof fn lemma_xor_one(x: usize)
    ensures
        x % 2 == 0 ==> x ^ 1 == x + 1,
        x % 2 == 1 ==> x ^ 1 == x - 1,
{
    assert(x % 2 == 0 ==> x ^ 1 == x + 1) by (bit_vector);
    assert(x % 2 == 1 ==> x ^ 1 == x - 1) by (bit_vector);
}

/// The field element obtained by hashing the pair `(a, b)`.
fn hash_pair_exec<H: Hasher>(hasher: &H, a: FpBabyBear, b: FpBabyBear) -> (r: FpBabyBear)
    ensures
        r.val() == hash_pair(hasher, a.val(), b.val()),
{
    let pair: Vec<FpBabyBear> = vec![a, b];
    proof {
        assert(vals(pair@) =~= seq![a.val(), b.val()]);
    }
    let bytes: Vec<u8> = hasher.hash(pair.as_slice());
    FpBabyBear::from_le_bytes_mod_order(bytes.as_slice())
}

impl<H: Hasher> MerkleTree<H> {
    #[verifier::type_invariant]
    closed spec fn shape_ok(self) -> bool {
        halving_shape(self@)
    }

    /// Builds the tree over `leaves`, padded with zeros to a power-of-two count.
    pub fn new(hasher: &H, leaves: &[FpBabyBear]) -> (r: Result<Self, StarkError>)
        requires
            leaves@.len() <= usize::MAX / 2 + 1,
        ensures
            r matches Ok(t) && t@ == merkle_layers(hasher, pad_leaves(vals(leaves@))),
    {
        let mut current_layer: Vec<FpBabyBear> = Vec::new();
        let ghost k0: nat;
        if leaves.len() == 0 {
            current_layer.push(FpBabyBear::zero());
            proof {
                k0 = 0;
                lemma2_to64();
                assert(vals(current_layer@) =~= pad_leaves(vals(leaves@)));
            }
        } else {
            let mut size: usize = 1;
            let mut k: usize = 0;
            proof {
                lemma2_to64();
            }
            while size < leaves.len()
                invariant
                    size == pow2(k as nat),
                    size >= 1,
                    k <= size,
                    leaves@.len() <= usize::MAX / 2 + 1,
                    k > 0 ==> pow2((k - 1) as nat) < leaves@.len(),
                decreases usize::MAX - size,
            {
                proof {
                    lemma_pow2_unfold((k + 1) as nat);
                }
                size = size * 2;
                k = k + 1;
            }
            proof {
                lemma_next_pow2(leaves@.len(), size as nat, k as nat);
                k0 = k as nat;
            }
            let mut i: usize = 0;
            while i < size
                invariant
                    i <= size,
                    size == next_pow2_spec(leaves@.len()),
                    current_layer@.len() == i,
                    forall|j: int|
                        0 <= j < i ==> #[trigger] current_layer@[j].val() == coef(vals(leaves@), j),
                decreases size - i,
            {
                if i < leaves.len() {
                    current_layer.push(leaves[i]);
                } else {
                    current_layer.push(FpBabyBear::zero());
                }
                i = i + 1;
            }
            proof {
                assert(vals(current_layer@) =~= pad_leaves(vals(leaves@)));
            }
        }
        let ghost padded = vals(current_layer@);
        let mut layers: Vec<Vec<FpBabyBear>> = Vec::new();
        layers.push(current_layer);
        let ghost mut kk: nat = k0;
        proof {
            lemma_layers_shape(hasher, padded, k0);
            let lv = layers@.map_values(|l: Vec<FpBabyBear>| vals(l@));
            assert(lv.drop_last() + merkle_layers(hasher, lv.last()) =~= merkle_layers(hasher, padded));
        }
        while layers[layers.len() - 1].len() > 1
            invariant
                layers@.len() >= 1,
                layers@.last()@.len() == pow2(kk),
                ({
                    let lv = layers@.map_values(|l: Vec<FpBabyBear>| vals(l@));
                    lv.drop_last() + merkle_layers(hasher, lv.last()) == merkle_layers(hasher, padded)
                }),
            decreases layers@.last()@.len(),
        {
            let last: usize = layers.len() - 1;
            let ghost prev_v = vals(layers@[last as int]@);
            let cur_len: usize = layers[last].len();
            let half: usize = cur_len / 2;
            let mut new_layer: Vec<FpBabyBear> = Vec::new();
            let mut j: usize = 0;
            proof {
                if kk == 0 {
                    lemma2_to64();
                }
                lemma_pow2_unfold(kk);
            }
            while j < half
                invariant
                    layers@.len() >= 1,
                    last == layers@.len() - 1,
                    prev_v == vals(layers@[last as int]@),
                    half == prev_v.len() / 2,
                    prev_v.len() == 2 * half,
                    2 * half <= cur_len,
                    j <= half,
                    new_layer@.len() == j,
                    forall|m: int|
                        0 <= m < j ==> #[trigger] new_layer@[m].val() == next_layer(hasher, prev_v)[m],
                decreases half - j,
            {
                let a: FpBabyBear = layers[last][2 * j];
                let b: FpBabyBear = layers[last][2 * j + 1];
                let node: FpBabyBear = hash_pair_exec(hasher, a, b);
                new_layer.push(node);
                j = j + 1;
            }
            let ghost old_layers = layers@;
            layers.push(new_layer);
            proof {
                let lv0 = old_layers.map_values(|l: Vec<FpBabyBear>| vals(l@));
                let lv = layers@.map_values(|l: Vec<FpBabyBear>| vals(l@));
                assert(vals(new_layer@) =~= next_layer(hasher, prev_v));
                assert(lv0.last() == prev_v);
                assert(lv.drop_last() =~= lv0);
                assert(lv.last() == next_layer(hasher, prev_v));
                assert(merkle_layers(hasher, prev_v) == seq![prev_v] + merkle_layers(
                    hasher,
                    next_layer(hasher, prev_v),
                ));
                assert(lv0 =~= lv0.drop_last() + seq![prev_v]);
                assert(lv.drop_last() + merkle_layers(hasher, lv.last()) =~= lv0.drop_last() + (
                seq![prev_v] + merkle_layers(hasher, next_layer(hasher, prev_v))));
                kk = (kk - 1) as nat;
            }
        }
        proof {
            let lv = layers@.map_values(|l: Vec<FpBabyBear>| vals(l@));
            assert(merkle_layers(hasher, lv.last()) == seq![lv.last()]);
            assert(lv =~= lv.drop_last() + seq![lv.last()]);
        }
        let tree = MerkleTree { layers, _phantom: PhantomData };
        Ok(tree)
    }

    /// The single node of the top layer.
    pub fn root(&self) -> (r: Result<FpBabyBear, StarkError>)
        ensures
            r matches Ok(x) && x.val() == self@.last()[0],
    {
        proof {
            use_type_invariant(self);
        }
        let top: usize = self.layers.len() - 1;
        proof {
            assert(self@[top as int] == vals(self.layers@[top as int]@));
        }
        Ok(self.layers[top][0])
    }

    /// The authentication path of leaf `leaf_index`; fails for an index beyond the
    /// leaves (unless the tree is a single node).
    pub fn prove(&self, leaf_index: usize) -> (r: Result<MerkleProof, StarkError>)
        ensures
            self@.len() > 1 && leaf_index >= self@[0].len() ==> r == Err::<MerkleProof, StarkError>(
                StarkError::LeafIndexOutOfBounds,
            ),
            !(self@.len() > 1 && leaf_index >= self@[0].len()) ==> (r matches Ok(pf) && vals(
                pf.siblings@,
            ) == merkle_path(self@, leaf_index as int)),
    {
        proof {
            use_type_invariant(self);
        }
        let mut siblings: Vec<FpBabyBear> = Vec::new();
        let mut current_index: usize = leaf_index;
        let nl: usize = self.layers.len() - 1;
        let mut k: usize = 0;
        proof {
            lemma2_to64();
            lemma_pow2_pos(0);
        }
        while k < nl
            invariant
                halving_shape(self@),
                nl == self@.len() - 1,
                k <= nl,
                current_index == leaf_index as int / pow2(k as nat) as int,
                k > 0 ==> current_index < self@[k as int].len(),
                k > 0 ==> leaf_index < self@[0].len(),
                vals(siblings@) == merkle_path(self@, leaf_index as int).subrange(0, k as int),
            decreases nl - k,
        {
            proof {
                lemma2_to64();
                assert(self@[k as int] == vals(self.layers@[k as int]@));
                assert(self@[k as int].len() == self.layers@[k as int]@.len());
            }
            if current_index >= self.layers[k].len() {
                proof {
                    assert(k == 0);
                    assert(leaf_index as int / 1 == leaf_index);
                }
                return Err(StarkError::LeafIndexOutOfBounds);
            }
            proof {
                if k == 0 {
                    assert(leaf_index as int / 1 == leaf_index);
                }
            }
            let sibling_index: usize = current_index ^ 1;
            proof {
                lemma_xor_one(current_index);
                assert(self@[k as int].len() == 2 * self@[k + 1].len());
                lemma_fundamental_div_mod(current_index as int, 2);
                assert(sibling_index == sibling(current_index as int));
            }
            let ghost old_sibs = siblings@;
            siblings.push(self.layers[k][sibling_index]);
            proof {
                lemma_merkle_step(self@, leaf_index as int, k as int, current_index as int);
                lemma_vals_push(old_sibs, self.layers@[k as int]@[sibling_index as int]);
                let path = merkle_path(self@, leaf_index as int);
                assert(path.subrange(0, k + 1) =~= path.subrange(0, k as int).push(path[k as int]));
            }
            current_index = current_index / 2;
            k = k + 1;
        }
        proof {
            let path = merkle_path(self@, leaf_index as int);
            assert(path.subrange(0, nl as int) =~= path);
        }
        Ok(MerkleProof { siblings })
    }

    /// Whether the path `proof` leads from `leaf` at `leaf_index` to `root`.
    pub fn verify(
        hasher: &H,
        root: &FpBabyBear,
        leaf: &FpBabyBear,
        leaf_index: usize,
        proof: &MerkleProof,
    ) -> (r: Result<bool, StarkError>)
        ensures
            r == Ok::<bool, StarkError>(
                path_root(hasher, leaf.val(), leaf_index as int, vals(proof.siblings@)) == root.val(),
            ),
    {
        let mut current_hash: FpBabyBear = *leaf;
        let mut current_index: usize = leaf_index;
        let n: usize = proof.siblings.len();
        let mut k: usize = 0;
        let ghost sibs = vals(proof.siblings@);
        proof {
            assert(sibs.subrange(0, n as int) =~= sibs);
        }
        while k < n
            invariant
                n == proof.siblings@.len(),
                sibs == vals(proof.siblings@),
                k <= n,
                path_root(hasher, current_hash.val(), current_index as int, sibs.subrange(
                    k as int,
                    n as int,
                )) == path_root(hasher, leaf.val(), leaf_index as int, sibs),
            decreases n - k,
        {
            let sibling: FpBabyBear = proof.siblings[k];
            let ghost rest = sibs.subrange(k as int, n as int);
            if current_index % 2 == 0 {
                current_hash = hash_pair_exec(hasher, current_hash, sibling);
            } else {
                current_hash = hash_pair_exec(hasher, sibling, current_hash);
            }
            proof {
                assert(rest.drop_first() =~= sibs.subrange(k + 1, n as int));
                assert(rest[0] == sibling.val());
            }
            current_index = current_index / 2;
            k = k + 1;
        }
        proof {
            assert(sibs.subrange(n as int, n as int).len() == 0);
        }
        Ok(current_hash == *root)
    }
}

/// One step of the path: position `k` of the path of `leaf` is the sibling of
/// the node above the leaf at that layer, and the next position halves.
proof fn lemma_merkle_step(ls: Seq<Seq<int>>, leaf: int, k: int, cur: int)
    requires
        0 <= k < ls.len() - 1,
        leaf >= 0,
        cur == leaf / pow2(k as nat) as int,
    ensures
        merkle_path(ls, leaf)[k] == ls[k][sibling(cur)],
        cur / 2 == leaf / pow2((k + 1) as nat) as int,
{
    lemma_pow2_unfold((k + 1) as nat);
    lemma_pow2_pos(k as nat);
    lemma_div_denominator(leaf, pow2(k as nat) as int, 2);
    lemma_mul_is_commutative(pow2(k as nat) as int, 2);
}

/// A Merkle path produced for a leaf of a tree leads back to the tree's root: for
/// every hasher, every set of leaves and every leaf position of the padded layer,
/// verifying the path from `prove` against `root` succeeds.
pub proof fn lemma_merkle_completeness<H: Hasher>(h: &H, leaves: Seq<int>, idx: int)
    requires
        0 <= idx < pad_leaves(leaves).len(),
    ensures
        path_root(
            h,
            pad_leaves(leaves)[idx],
            idx,
            merkle_path(merkle_layers(h, pad_leaves(leaves)), idx),
        ) == merkle_layers(h, pad_leaves(leaves)).last()[0],
{
    let pl = pad_leaves(leaves);
    let k = lemma_pad_is_pow2(leaves);
    lemma_path_completes(h, pl, k, idx);
}

proof fn lemma_pad_is_pow2(leaves: Seq<int>) -> (k: nat)
    ensures
        pad_leaves(leaves).len() == pow2(k),
{
    lemma2_to64();
    if leaves.len() == 0 {
        0
    } else {
        lemma_next_pow2_is_pow2(leaves.len())
    }
}

proof fn lemma_next_pow2_is_pow2(n: nat) -> (k: nat)
    ensures
        next_pow2_spec(n) == pow2(k),
    decreases n,
{
    lemma2_to64();
    if n <= 1 {
        0
    } else {
        let k0 = lemma_next_pow2_is_pow2(((n + 1) / 2) as nat);
        lemma_pow2_unfold(k0 + 1);
        k0 + 1
    }
}

proof fn lemma_path_completes<H: Hasher>(h: &H, layer: Seq<int>, k: nat, idx: int)
    requires
        layer.len() == pow2(k),
        0 <= idx < layer.len(),
    ensures
        path_root(h, layer[idx], idx, merkle_path(merkle_layers(h, layer), idx)) == merkle_layers(
            h,
            layer,
        ).last()[0],
    decreases k,
{
    lemma2_to64();
    let ls = merkle_layers(h, layer);
    if k == 0 {
        assert(merkle_path(ls, idx).len() == 0);
    } else {
        lemma_pow2_unfold(k);
        lemma_pow2_pos((k - 1) as nat);
        let up = next_layer(h, layer);
        let rest = merkle_layers(h, up);
        assert(ls == seq![layer] + rest);
        let path = merkle_path(ls, idx);
        lemma_layers_shape(h, up, (k - 1) as nat);
        assert(path.drop_first() =~= merkle_path(rest, idx / 2)) by {
            assert forall|j: int| 0 <= j < path.len() - 1 implies #[trigger] path.drop_first()[j]
                == merkle_path(rest, idx / 2)[j] by {
                lemma_pow2_unfold((j + 1) as nat);
                lemma_pow2_pos(j as nat);
                lemma_div_denominator(idx, 2, pow2(j as nat) as int);
                assert(ls[j + 1] == rest[j]);
            }
        }
        lemma_fundamental_div_mod(idx, 2);
        assert(idx / 1 == idx);
        assert(path[0] == layer[sibling(idx)]);
        let next = if idx % 2 == 0 {
            hash_pair(h, layer[idx], path[0])
        } else {
            hash_pair(h, path[0], layer[idx])
        };
        assert(next == up[idx / 2]);
        lemma_path_completes(h, up, (k - 1) as nat, idx / 2);
        assert(ls.last() == rest.last());
    }
}

} // verus!
