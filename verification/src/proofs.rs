//! The proof verifier — the logical counterpart of the generator — and the
//! laws that tie builder, generator and verifier together.
use vstd::prelude::*;
use vstd::arithmetic::power2::{pow2, lemma_pow2_unfold};

use crate::hashing::{_sha3, _sha3_leaves, bytes_eq, sha3_of};
use crate::model::{chain_enc, chain_step, entries_ok, fproof, root_of, views_of, LEFT_TAG};
use crate::tree::{
    frontier, full, height, lemma_full_frontier_len, lemma_full_root, MerkleTree,
};

verus! {

/// Recompute the root from a leaf's raw data and its inclusion proof, and
/// compare it with a trusted root digest. Each proof entry is a sibling
/// digest with a side tag appended; the running digest is combined with the
/// sibling on the side the tag names, from the leaf's immediate sibling
/// upward. The index and tree size identify the claim being checked but do
/// not enter the recomputation.
#[allow(unused_variables)]
pub fn verify(
    item: &[u8],
    index: usize,
    tree_size: usize,
    proof: &Vec<Vec<u8>>,
    expected_root: &[u8],
) -> (r: bool)
    ensures
        r == (entries_ok(views_of(proof@)) && chain_enc(sha3_of(item@), views_of(proof@))
            == expected_root@),
{
    let ghost start = sha3_of(item@);
    let ghost pf = views_of(proof@);
    let mut current = _sha3(item);
    let mut k: usize = 0;
    while k < proof.len()
        invariant
            k <= proof@.len(),
            pf == views_of(proof@),
            pf.len() == proof@.len(),
            forall|m: int| 0 <= m < k ==> pf[m].len() >= 1,
            current@ == chain_enc(start, pf.take(k as int)),
        decreases proof@.len() - k,
    {
        let entry: &Vec<u8> = &proof[k];
        let n: usize = entry.len();
        if n == 0 {
            proof {
                assert(pf[k as int].len() == 0);
                assert(!entries_ok(pf));
            }
            return false;
        }
        let tag: u8 = entry[n - 1];
        let sib = vstd::slice::slice_subrange(entry.as_slice(), 0, n - 1);
        let next = if tag == LEFT_TAG {
            _sha3_leaves(sib, current.as_slice())
        } else {
            _sha3_leaves(current.as_slice(), sib)
        };
        proof {
            assert(pf[k as int] == entry@);
            assert(sib@ == entry@.take(n - 1));
            assert(next@ == chain_step(current@, pf[k as int]));
            assert(pf.take(k + 1) =~= pf.take(k as int).push(pf[k as int]));
            crate::model::lemma_chain_append(start, pf.take(k as int), seq![pf[k as int]]);
            crate::model::lemma_chain_one(current@, pf[k as int]);
            assert(pf.take(k as int).push(pf[k as int]) =~= pf.take(k as int) + seq![
                pf[k as int],
            ]);
        }
        current = next;
        k = k + 1;
    }
    proof {
        assert(pf.take(proof@.len() as int) =~= pf);
        assert(entries_ok(pf));
    }
    bytes_eq(current.as_slice(), expected_root)
}

/// Building is deterministic: two well-formed trees over the same leaf
/// digests carry the same root digest.
pub proof fn lemma_build_deterministic(t1: MerkleTree, t2: MerkleTree)
    requires
        t1.wf(),
        t2.wf(),
        t1.leaves@ == t2.leaves@,
    ensures
        t1.root.hash@ == t2.root.hash@,
{
}

/// An honestly generated proof verifies: for every valid index, the proof
/// that `get_proof` returns chains from that leaf's digest back to the
/// tree's root digest, and every entry of it carries a side tag — so
/// `verify` of that proof against `get_root_hash` returns true.
pub proof fn lemma_generated_proof_verifies(t: MerkleTree, i: int)
    requires
        t.wf(),
        0 <= i < t.size as int,
    ensures
        entries_ok(fproof(frontier(t.root), i)),
        chain_enc(t.leaves@[i], fproof(frontier(t.root), i)) == t.root.hash@,
{
    let f = frontier(t.root);
    let h = height(t.root);
    lemma_full_frontier_len(t.root, h);
    assert(t.leaves@[i] == f[i]) by {
        assert(t.leaves@.is_prefix_of(f));
        assert(t.leaves@ =~= f.take(t.leaves@.len() as int));
    }
    crate::model::lemma_fproof_chains_to_root(f, i, h);
    lemma_full_root(t.root, h);
}

/// A proof for a valid index never chains to anything but the true root:
/// against a tampered expected root, verification fails.
pub proof fn lemma_tampered_root_rejected(t: MerkleTree, i: int, wrong_root: Seq<u8>)
    requires
        t.wf(),
        0 <= i < t.size as int,
        wrong_root != t.root.hash@,
    ensures
        chain_enc(t.leaves@[i], fproof(frontier(t.root), i)) != wrong_root,
{
    lemma_generated_proof_verifies(t, i);
}

/// A single-item tree's root digest is the digest of that one item, its only
/// proof is empty, and verification of that empty proof reduces to comparing
/// the leaf digest with the root.
pub proof fn lemma_single_item(t: MerkleTree)
    requires
        t.wf(),
        t.size == 1,
    ensures
        t.root.hash@ == t.leaves@[0],
        fproof(frontier(t.root), 0) == Seq::<Seq<u8>>::empty(),
        chain_enc(t.leaves@[0], fproof(frontier(t.root), 0)) == t.root.hash@,
{
    let h = height(t.root);
    assert(h == 0) by {
        if h >= 1 {
            lemma_pow2_unfold(h);
            vstd::arithmetic::power2::lemma_pow2_pos((h - 1) as nat);
            assert(pow2(h) >= 2);
        }
    }
    assert(full(t.root, 0));
    assert(frontier(t.root) =~= seq![t.root.hash@]);
    assert(t.leaves@ =~= frontier(t.root).take(1));
    assert(t.leaves@[0] == t.root.hash@);
    assert(fproof(frontier(t.root), 0) == Seq::<Seq<u8>>::empty());
}

} // verus!
