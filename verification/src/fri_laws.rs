//! What FRI's answers mean: an accepted proof folds consistently from layer to layer and
//! ends in a polynomial within the degree bound; an honest proof folds every layer into
//! the next; and each query opens the position derived from its own number.
use crate::error::StarkError;
use crate::field_babybear::{le_bytes_value, p, vals, FpBabyBear};
use crate::fri::{
    commit_root, degree_spec, expected_after, final_error, final_point,
    first_layer_error, first_query_error, fri_layers, fri_remainder, fri_roots, fri_verify_spec,
    is_honest_fri_proof, layer_error, lemma_fri_completeness, query_error, query_index_spec,
    query_seed, FriProof, FriQueryProof,
};
use crate::merkle_tree_fp::{is_pow2, path_root, sibling, Hasher, MerkleProof};
use crate::poly::poly_value;
use vstd::arithmetic::power2::*;
use vstd::prelude::*;

verus! {

/// No query from `i` on fails: each of them is within the number of queries and passes.
proof fn lemma_queries_pass_from<H: Hasher>(
    h: &H,
    roots: Seq<int>,
    fin: Seq<int>,
    queries: Seq<FriQueryProof>,
    domain_size: int,
    num_queries: int,
    i: nat,
)
    requires
        first_query_error(h, roots, fin, queries, domain_size, num_queries, i) is None,
    ensures
        forall|q: int|
            i <= q < queries.len() ==> q < num_queries && query_error(
                h,
                roots,
                fin,
                #[trigger] queries[q].layer_proofs@,
                query_index_spec(h, roots, fin, domain_size, q),
            ) is None,
    decreases queries.len() - i,
{
    if i < queries.len() {
        lemma_queries_pass_from(h, roots, fin, queries, domain_size, num_queries, i + 1);
    }
}

/// No layer from `j` on fails.
proof fn lemma_layers_pass_from<H: Hasher>(
    h: &H,
    roots: Seq<int>,
    ops: Seq<(MerkleProof, (FpBabyBear, FpBabyBear), MerkleProof)>,
    idx: int,
    j: nat,
)
    requires
        first_layer_error(h, roots, ops, idx, j) is None,
    ensures
        forall|k: int| j <= k < ops.len() ==> #[trigger] layer_error(h, roots, ops, idx, k) is None,
    decreases ops.len() - j,
{
    if j < ops.len() {
        lemma_layers_pass_from(h, roots, ops, idx, j + 1);
    }
}

/// What an accepted query opens: every layer has a root, both opened values lead by
/// their Merkle paths to that root, each layer's opened value is the fold
/// `left + alpha_(j-1) * right` of the pair opened in the layer before (left and right by
/// the parity of the position there, alpha from that layer's root), and the final
/// polynomial takes the fold of the last pair at the final position.
proof fn lemma_accepted_query<H: Hasher>(
    h: &H,
    roots: Seq<int>,
    fin: Seq<int>,
    ops: Seq<(MerkleProof, (FpBabyBear, FpBabyBear), MerkleProof)>,
    idx: int,
)
    requires
        query_error(h, roots, fin, ops, idx) is None,
    ensures
        ops.len() <= roots.len(),
        forall|j: int|
            0 <= j < ops.len() ==> path_root(
                h,
                (#[trigger] ops[j]).1.0.val(),
                idx / pow2(j as nat) as int,
                vals(ops[j].0.siblings@),
            ) == roots[j] && path_root(
                h,
                ops[j].1.1.val(),
                sibling(idx / pow2(j as nat) as int),
                vals(ops[j].2.siblings@),
            ) == roots[j],
        forall|j: int|
            1 <= j < ops.len() ==> (#[trigger] ops[j]).1.0.val() == {
                let o = ops[j - 1];
                let a = (le_bytes_value(h.spec_hash(seq![roots[j - 1], j % p()])) as int % p());
                if (idx / pow2((j - 1) as nat) as int) % 2 == 0 {
                    (o.1.0.val() + a * o.1.1.val()) % p()
                } else {
                    (o.1.1.val() + a * o.1.0.val()) % p()
                }
            },
        ops.len() > 0 ==> fin.len() <= 0x800_0000 && poly_value(
            fin,
            final_point(fin.len(), idx / pow2(ops.len()) as int),
        ) % p() == {
            let o = ops[ops.len() - 1];
            let a = (le_bytes_value(h.spec_hash(seq![roots[ops.len() - 1], ops.len() as int % p()])) as int % p());
            if (idx / pow2((ops.len() - 1) as nat) as int) % 2 == 0 {
                (o.1.0.val() + a * o.1.1.val()) % p()
            } else {
                (o.1.1.val() + a * o.1.0.val()) % p()
            }
        },
{
    lemma_layers_pass_from(h, roots, ops, idx, 0);
    if ops.len() > 0 {
        assert(layer_error(h, roots, ops, idx, ops.len() - 1) is None);
    }
    assert forall|j: int| 1 <= j < ops.len() implies (#[trigger] ops[j]).1.0.val() == {
        let o = ops[j - 1];
        let a = (le_bytes_value(h.spec_hash(seq![roots[j - 1], j % p()])) as int % p());
        if (idx / pow2((j - 1) as nat) as int) % 2 == 0 {
            (o.1.0.val() + a * o.1.1.val()) % p()
        } else {
            (o.1.1.val() + a * o.1.0.val()) % p()
        }
    } by {
        assert(layer_error(h, roots, ops, idx, j) is None);
        assert(ops[j].1.0.val() == expected_after(h, roots, ops, idx, j - 1));
    }
    assert forall|j: int| 0 <= j < ops.len() implies path_root(
        h,
        (#[trigger] ops[j]).1.0.val(),
        idx / pow2(j as nat) as int,
        vals(ops[j].0.siblings@),
    ) == roots[j] && path_root(
        h,
        ops[j].1.1.val(),
        sibling(idx / pow2(j as nat) as int),
        vals(ops[j].2.siblings@),
    ) == roots[j] by {
        assert(layer_error(h, roots, ops, idx, j) is None);
    }
    if ops.len() > 0 {
        assert(final_error(h, roots, fin, ops, idx) is None);
    }
}

/// The index of the last nonzero coefficient bounds every nonzero coefficient.
proof fn lemma_degree_bounds(s: Seq<int>)
    ensures
        forall|i: int| degree_spec(s) < i < s.len() ==> s[i] == 0,
    decreases s.len(),
{
    if s.len() > 0 && s.last() == 0 {
        lemma_degree_bounds(s.drop_last());
        assert forall|i: int| degree_spec(s) < i < s.len() implies s[i] == 0 by {
            if i < s.len() - 1 {
                assert(s[i] == s.drop_last()[i]);
            }
        }
    }
}

/// FRI soundness of the checks: when the verifier accepts a proof, every query is one of
/// the `num_queries` derived ones, and for each query at its derived position every layer
/// has a root that both opened values lead to by their Merkle paths, each layer's opened
/// value is the fold `left + alpha * right` of the pair opened in the layer before (alpha
/// from that layer's root and index), the final polynomial takes the fold of the last
/// pair, and every coefficient of the final polynomial beyond
/// `max_degree / 2^(number of roots)` is zero.
pub proof fn lemma_fri_accepted<H: Hasher>(
    h: &H,
    proof: FriProof,
    max_degree: usize,
    domain_size: int,
    num_queries: usize,
)
    requires
        proof.commitments@.len() > 0 ==> proof.commitments@[0].roots@.len() < usize::BITS,
        fri_verify_spec(h, proof, max_degree, domain_size, num_queries as int) == Ok::<bool, StarkError>(
            true,
        ),
    ensures
        proof.commitments@.len() > 0,
        proof.queries@.len() <= num_queries,
        ({
            let roots = vals(proof.commitments@[0].roots@);
            let fin = vals(proof.commitments@[0].final_poly@);
            &&& forall|i: int|
                (max_degree as int / (pow2(roots.len()) as int)) < i < fin.len() ==> fin[i] == 0
            &&& forall|q: int|
                0 <= q < proof.queries@.len() ==> {
                    let ops = #[trigger] proof.queries@[q].layer_proofs@;
                    let idx = query_index_spec(h, roots, fin, domain_size, q);
                    &&& ops.len() <= roots.len()
                    &&& forall|j: int|
                        0 <= j < ops.len() ==> path_root(
                            h,
                            (#[trigger] ops[j]).1.0.val(),
                            idx / pow2(j as nat) as int,
                            vals(ops[j].0.siblings@),
                        ) == roots[j] && path_root(
                            h,
                            ops[j].1.1.val(),
                            sibling(idx / pow2(j as nat) as int),
                            vals(ops[j].2.siblings@),
                        ) == roots[j]
                    &&& forall|j: int|
                        1 <= j < ops.len() ==> (#[trigger] ops[j]).1.0.val() == {
                            let o = ops[j - 1];
                            let a = (le_bytes_value(h.spec_hash(seq![roots[j - 1], j % p()])) as int % p());
                            if (idx / pow2((j - 1) as nat) as int) % 2 == 0 {
                                (o.1.0.val() + a * o.1.1.val()) % p()
                            } else {
                                (o.1.1.val() + a * o.1.0.val()) % p()
                            }
                        }
                    &&& ops.len() > 0 ==> poly_value(
                        fin,
                        final_point(fin.len(), idx / pow2(ops.len()) as int),
                    ) % p() == {
                        let o = ops[ops.len() - 1];
                        let a = (le_bytes_value(h.spec_hash(seq![roots[ops.len() - 1], ops.len() as int % p()])) as int % p());
                        if (idx / pow2((ops.len() - 1) as nat) as int) % 2 == 0 {
                            (o.1.0.val() + a * o.1.1.val()) % p()
                        } else {
                            (o.1.1.val() + a * o.1.0.val()) % p()
                        }
                    }
                }
        }),
{
    let c = proof.commitments@[0];
    let roots = vals(c.roots@);
    let fin = vals(c.final_poly@);
    let queries = proof.queries@;
    lemma_queries_pass_from(h, roots, fin, queries, domain_size, num_queries as int, 0);
    if queries.len() > 0 {
        assert(queries.len() - 1 < num_queries) by {
            assert(query_error(
                h,
                roots,
                fin,
                queries[queries.len() - 1].layer_proofs@,
                query_index_spec(h, roots, fin, domain_size, queries.len() - 1),
            ) is None);
        }
    }
    assert forall|q: int| 0 <= q < queries.len() implies {
        let ops = #[trigger] queries[q].layer_proofs@;
        let idx = query_index_spec(h, roots, fin, domain_size, q);
        &&& ops.len() <= roots.len()
        &&& forall|j: int|
            0 <= j < ops.len() ==> path_root(
                h,
                (#[trigger] ops[j]).1.0.val(),
                idx / pow2(j as nat) as int,
                vals(ops[j].0.siblings@),
            ) == roots[j] && path_root(
                h,
                ops[j].1.1.val(),
                sibling(idx / pow2(j as nat) as int),
                vals(ops[j].2.siblings@),
            ) == roots[j]
        &&& forall|j: int|
            1 <= j < ops.len() ==> (#[trigger] ops[j]).1.0.val() == {
                let o = ops[j - 1];
                let a = (le_bytes_value(h.spec_hash(seq![roots[j - 1], j % p()])) as int % p());
                if (idx / pow2((j - 1) as nat) as int) % 2 == 0 {
                    (o.1.0.val() + a * o.1.1.val()) % p()
                } else {
                    (o.1.1.val() + a * o.1.0.val()) % p()
                }
            }
        &&& ops.len() > 0 ==> poly_value(fin, final_point(fin.len(), idx / pow2(ops.len()) as int))
            % p() == {
            let o = ops[ops.len() - 1];
            let a = (le_bytes_value(h.spec_hash(seq![roots[ops.len() - 1], ops.len() as int % p()])) as int % p());
            if (idx / pow2((ops.len() - 1) as nat) as int) % 2 == 0 {
                (o.1.0.val() + a * o.1.1.val()) % p()
            } else {
                (o.1.1.val() + a * o.1.0.val()) % p()
            }
        }
    } by {
        let ops = queries[q].layer_proofs@;
        let idx = query_index_spec(h, roots, fin, domain_size, q);
        lemma_accepted_query(h, roots, fin, ops, idx);
    }
    lemma_accepted_degree(h, proof, max_degree, domain_size, num_queries);
    lemma_pow2_pos(roots.len());
    assert(roots.len() == c.roots@.len());
    assert forall|i: int|
        (max_degree as int / (pow2(roots.len()) as int)) < i < fin.len() implies fin[i] == 0 by {
        assert(fin[i] == c.final_poly@[i].val());
    }
}

/// The degree part of the law above: an accepted final polynomial has no nonzero
/// coefficient beyond `max_degree / 2^(number of roots)`.
proof fn lemma_accepted_degree<H: Hasher>(
    h: &H,
    proof: FriProof,
    max_degree: usize,
    domain_size: int,
    num_queries: usize,
)
    requires
        proof.commitments@.len() > 0 ==> proof.commitments@[0].roots@.len() < usize::BITS,
        fri_verify_spec(h, proof, max_degree, domain_size, num_queries as int) == Ok::<bool, StarkError>(
            true,
        ),
    ensures
        proof.commitments@.len() > 0,
        forall|i: int|
            (max_degree as int / (pow2(proof.commitments@[0].roots@.len() as nat) as int)) < i
                < proof.commitments@[0].final_poly@.len() ==> #[trigger] proof.commitments@[
                0].final_poly@[i].val() == 0,
{
    let c = proof.commitments@[0];
    let fin = vals(c.final_poly@);
    let k = c.roots@.len();
    vstd::bits::lemma_usize_shr_is_div(max_degree, k as usize);
    lemma_degree_bounds(fin);
    assert forall|i: int|
        (max_degree as int / (pow2(k as nat) as int)) < i < c.final_poly@.len() implies #[trigger] c.final_poly@[
        i].val() == 0 by {
        assert(fin[i] == c.final_poly@[i].val());
    }
}

/// In an honest FRI proof every layer folds into the next: layer k + 1 at position j is
/// `layer_k[2j] + alpha_k * layer_k[2j+1]`, with alpha_k derived from the root that
/// commits to layer k; the final polynomial is the fold of the last layer; and the
/// openings of every query show the same folding, layer by layer.
pub proof fn lemma_honest_proof_folds<H: Hasher>(h: &H, s: Seq<int>, domain_size: int, pf: FriProof)
    requires
        is_pow2(s.len()),
        s.len() <= usize::MAX,
        forall|i: int| 0 <= i < s.len() ==> 0 <= #[trigger] s[i] < p(),
        0 < domain_size,
        s.len() > 1 ==> domain_size <= s.len(),
        is_honest_fri_proof(h, s, domain_size, pf),
    ensures
        ({
            let layers = fri_layers(h, s, 0);
            let roots = vals(pf.commitments@[0].roots@);
            let fin = vals(pf.commitments@[0].final_poly@);
            &&& roots.len() == layers.len()
            &&& forall|k: int| 0 <= k < layers.len() ==> roots[k] == commit_root(h, #[trigger] layers[k])
            &&& layers.len() > 0 ==> layers[0] == s
            &&& forall|k: int, j: int|
                0 <= k < layers.len() - 1 && 0 <= j < layers[k + 1].len() ==> #[trigger] layers[k
                    + 1][j] == (layers[k][2 * j] + (le_bytes_value(h.spec_hash(seq![roots[k], (k + 1) % p()])) as int % p()) * layers[k][2 * j
                    + 1]) % p()
            &&& layers.len() > 0 ==> fin.len() == 1 && fin[0] == (layers[layers.len() - 1][0]
                + (le_bytes_value(h.spec_hash(seq![roots[layers.len() - 1], layers.len() as int % p()])) as int % p()) * layers[layers.len()
                - 1][1]) % p()
            &&& forall|q: int|
                0 <= q < 3 ==> {
                    let ops = #[trigger] pf.queries@[q].layer_proofs@;
                    let idx = query_index_spec(h, roots, fin, domain_size, q);
                    forall|j: int|
                        1 <= j < ops.len() ==> (#[trigger] ops[j]).1.0.val() == {
                            let o = ops[j - 1];
                            let a = (le_bytes_value(h.spec_hash(seq![roots[j - 1], j % p()])) as int % p());
                            if (idx / pow2((j - 1) as nat) as int) % 2 == 0 {
                                (o.1.0.val() + a * o.1.1.val()) % p()
                            } else {
                                (o.1.1.val() + a * o.1.0.val()) % p()
                            }
                        }
                }
        }),
{
    lemma_fri_completeness(h, s, domain_size, pf, 0, 3);
    lemma_fri_accepted(h, pf, 0, domain_size, 3);
    let e = choose|k: nat| pow2(k) == s.len();
    crate::fri::lemma_fri_shape(h, s, 0, e);
}

/// Query `i` opens the position read from the first eight bytes of the hash of the layer
/// roots followed by the digest of the final polynomial and the number `i` itself, so
/// queries with different numbers below p hash different inputs.
pub proof fn lemma_query_position<H: Hasher>(
    h: &H,
    roots: Seq<int>,
    fin: Seq<int>,
    domain_size: int,
    i: int,
    j: int,
)
    ensures
        query_index_spec(h, roots, fin, domain_size, i) == ((le_bytes_value(
            h.spec_hash(roots + seq![le_bytes_value(h.spec_hash(fin)) as int % p(), i % p()]).subrange(
                0,
                8,
            ),
        ) as u64) as usize) as int % domain_size,
        0 <= i < p() && 0 <= j < p() && i != j ==> query_seed(h, roots, fin, i) != query_seed(
            h,
            roots,
            fin,
            j,
        ),
{
    if 0 <= i < p() && 0 <= j < p() && i != j {
        let si = query_seed(h, roots, fin, i);
        let sj = query_seed(h, roots, fin, j);
        vstd::arithmetic::div_mod::lemma_small_mod(i as nat, p() as nat);
        vstd::arithmetic::div_mod::lemma_small_mod(j as nat, p() as nat);
        assert(si[si.len() - 1] == i);
        assert(sj[sj.len() - 1] == j);
    }
}

} // verus!
