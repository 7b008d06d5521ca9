//! The tree itself: nodes, the builder that reduces a leaf level to a root,
//! and the proof generator that derives a leaf's sibling path.
use vstd::prelude::*;
use vstd::arithmetic::power2::{pow2, lemma_pow2_unfold};

use crate::hashing::{_sha3, _sha3_leaves, copy_bytes, sha3_of};
use crate::model::{
    bits_ok, combine, fproof, levels_needed, pad, root_of, undigits, views_of, LEFT_TAG, RIGHT_TAG,
};

verus! {

/// A tree node: a leaf holds only its digest; an internal node also owns its
/// two children.
pub struct Node {
    pub left: Option<Box<Node>>,
    pub right: Option<Box<Node>>,
    pub hash: Vec<u8>,
}

/// The number of levels below this node along its leftmost path.
pub open spec fn height(n: Node) -> nat
    decreases n,
{
    match n.left {
        Some(l) => 1 + height(*l),
        None => 0,
    }
}

/// The node roots a perfect subtree of depth `d`: every node down to depth
/// `d` has both children, every digest is 32 bytes wide, and every internal
/// digest is the hash of its children's digests concatenated left then right.
pub open spec fn full(n: Node, d: nat) -> bool
    decreases d,
{
    &&& n.hash@.len() == 32
    &&& if d == 0 {
        n.left is None && n.right is None
    } else {
        &&& n.left is Some
        &&& n.right is Some
        &&& full(*n.left->Some_0, (d - 1) as nat)
        &&& full(*n.right->Some_0, (d - 1) as nat)
        &&& n.hash@ == sha3_of(n.left->Some_0.hash@ + n.right->Some_0.hash@)
    }
}

/// The digests at the bottom level of the subtree rooted here, left to right.
pub open spec fn frontier(n: Node) -> Seq<Seq<u8>>
    decreases n,
{
    match n.left {
        Some(l) => match n.right {
            Some(r) => frontier(*l) + frontier(*r),
            None => seq![n.hash@],
        },
        None => seq![n.hash@],
    }
}

/// The digests carried by a level of nodes, left to right.
pub open spec fn hashes_of(s: Seq<Box<Node>>) -> Seq<Seq<u8>> {
    s.map_values(|n: Box<Node>| (*n).hash@)
}

/// The concatenated frontiers of a level of nodes, left to right.
pub open spec fn frontiers(s: Seq<Box<Node>>) -> Seq<Seq<u8>>
    decreases s.len(),
{
    if s.len() == 0 {
        Seq::empty()
    } else {
        frontier(*s[0]) + frontiers(s.skip(1))
    }
}

/// A perfect subtree of depth `d` has a frontier of `pow2(d)` digests.
pub proof fn lemma_full_frontier_len(n: Node, d: nat)
    requires
        full(n, d),
    ensures
        frontier(n).len() == pow2(d),
    decreases d,
{
    if d == 0 {
        assert(pow2(0) == 1) by {
            vstd::arithmetic::power2::lemma2_to64();
        }
    } else {
        lemma_pow2_unfold(d);
        lemma_full_frontier_len(*n.left->Some_0, (d - 1) as nat);
        lemma_full_frontier_len(*n.right->Some_0, (d - 1) as nat);
    }
}

/// A perfect subtree of depth `d` has height `d`.
pub proof fn lemma_full_height(n: Node, d: nat)
    requires
        full(n, d),
    ensures
        height(n) == d,
    decreases d,
{
    if d != 0 {
        lemma_full_height(*n.left->Some_0, (d - 1) as nat);
    }
}

/// The digest of a perfect subtree's root is the level-wise root of its
/// frontier.
pub proof fn lemma_full_root(n: Node, d: nat)
    requires
        full(n, d),
    ensures
        n.hash@ == root_of(frontier(n)),
    decreases d,
{
    if d == 0 {
        assert(frontier(n) == seq![n.hash@]);
        assert(root_of(seq![n.hash@]) == n.hash@);
    } else {
        let l = *n.left->Some_0;
        let r = *n.right->Some_0;
        lemma_full_root(l, (d - 1) as nat);
        lemma_full_root(r, (d - 1) as nat);
        lemma_full_frontier_len(l, (d - 1) as nat);
        lemma_full_frontier_len(r, (d - 1) as nat);
        crate::model::lemma_root_concat(frontier(l), frontier(r), (d - 1) as nat);
    }
}

/// Appending a node to a level appends its frontier.
pub proof fn lemma_frontiers_push(s: Seq<Box<Node>>, n: Box<Node>)
    ensures
        frontiers(s.push(n)) == frontiers(s) + frontier(*n),
    decreases s.len(),
{
    if s.len() == 0 {
        assert(s.push(n).skip(1) =~= Seq::<Box<Node>>::empty());
        assert(s.push(n)[0] == n);
        assert(frontiers(s.push(n)) == frontier(*n) + frontiers(Seq::<Box<Node>>::empty()));
        assert(frontiers(s) + frontier(*n) =~= frontier(*n));
        assert(frontiers(s.push(n)) =~= frontier(*n));
    } else {
        assert(s.push(n).skip(1) =~= s.skip(1).push(n));
        lemma_frontiers_push(s.skip(1), n);
        assert(s.push(n)[0] == s[0]);
        assert(frontiers(s.push(n)) == frontier(*s[0]) + (frontiers(s.skip(1)) + frontier(*n)));
        assert(frontier(*s[0]) + (frontiers(s.skip(1)) + frontier(*n)) =~= (frontier(*s[0])
            + frontiers(s.skip(1))) + frontier(*n));
    }
}

/// One step of the proof-path recursion, read off the physical tree: for a
/// perfect subtree of depth `d >= 1`, the proof for a leaf position is the
/// proof within the child's half followed by the other child's digest,
/// tagged with the side that child sits on.
pub proof fn lemma_fproof_step(n: Node, d: nat, i: int)
    requires
        full(n, d),
        d >= 1,
        0 <= i < pow2(d),
    ensures
        n.left is Some,
        n.right is Some,
        frontier(n).len() == pow2(d),
        frontier(*n.left->Some_0).len() == pow2((d - 1) as nat),
        frontier(*n.right->Some_0).len() == pow2((d - 1) as nat),
        i < pow2((d - 1) as nat) ==> fproof(frontier(n), i) == fproof(
            frontier(*n.left->Some_0),
            i,
        ) + seq![n.right->Some_0.hash@.push(RIGHT_TAG)],
        i >= pow2((d - 1) as nat) ==> fproof(frontier(n), i) == fproof(
            frontier(*n.right->Some_0),
            i - pow2((d - 1) as nat),
        ) + seq![n.left->Some_0.hash@.push(LEFT_TAG)],
{
    let l = *n.left->Some_0;
    let r = *n.right->Some_0;
    lemma_full_frontier_len(n, d);
    lemma_full_frontier_len(l, (d - 1) as nat);
    lemma_full_frontier_len(r, (d - 1) as nat);
    lemma_full_root(l, (d - 1) as nat);
    lemma_full_root(r, (d - 1) as nat);
    lemma_pow2_unfold(d);
    vstd::arithmetic::power2::lemma_pow2_pos((d - 1) as nat);
    let f = frontier(n);
    let half = f.len() / 2;
    assert(f == frontier(l) + frontier(r));
    assert(half == pow2((d - 1) as nat));
    assert(f.len() >= 2);
    assert(f.take(half as int) =~= frontier(l));
    assert(f.skip(half as int) =~= frontier(r));
    if i < half {
        assert(fproof(f, i) == fproof(f.take(half as int), i) + seq![
            root_of(f.skip(half as int)).push(RIGHT_TAG),
        ]);
    } else {
        assert(fproof(f, i) == fproof(f.skip(half as int), i - half) + seq![
            root_of(f.take(half as int)).push(LEFT_TAG),
        ]);
    }
}

/// The given vector, last element first.
fn reversed<T>(v: Vec<T>) -> (r: Vec<T>)
    ensures
        r@.len() == v@.len(),
        forall|k: int| 0 <= k < v@.len() ==> r@[k] == v@[v@.len() - 1 - k],
{
    let ghost orig = v@;
    let mut v = v;
    let mut r: Vec<T> = Vec::new();
    proof {
        assert(v@ =~= orig.take(v@.len() as int));
    }
    while v.len() > 0
        invariant
            v@ == orig.take(v@.len() as int),
            r@.len() + v@.len() == orig.len(),
            forall|k: int| 0 <= k < r@.len() ==> r@[k] == orig[orig.len() - 1 - k],
        decreases v@.len(),
    {
        let ghost before = v@;
        let e = v.pop().unwrap();
        proof {
            assert(e == before[before.len() - 1]);
            assert(before[before.len() - 1] == orig[before.len() - 1]);
            assert(v@ =~= orig.take(v@.len() as int));
        }
        r.push(e);
    }
    r
}

impl Node {
    /// A leaf node carrying the digest of one original item.
    pub fn new_leaf(hash: Vec<u8>) -> (r: Node)
        ensures
            r.hash == hash,
            r.left is None,
            r.right is None,
            height(r) == 0,
            frontier(r) == seq![hash@],
            hash@.len() == 32 ==> full(r, 0),
    {
        Node { left: None, right: None, hash }
    }

    /// An internal node owning two children and carrying the given digest.
    pub fn new_internal(hash: Vec<u8>, left: Box<Node>, right: Box<Node>) -> (r: Node)
        ensures
            r.hash == hash,
            r.left == Some(left),
            r.right == Some(right),
            frontier(r) == frontier(*left) + frontier(*right),
            height(r) == 1 + height(*left),
    {
        Node { left: Some(left), right: Some(right), hash }
    }
}

/// A deep copy of a perfect subtree: same digests, same shape.
fn clone_node(n: &Node) -> (r: Node)
    requires
        full(*n, height(*n)),
    ensures
        r.hash@ == n.hash@,
        height(r) == height(*n),
        frontier(r) == frontier(*n),
        full(r, height(r)),
    decreases *n,
{
    let h = copy_bytes(n.hash.as_slice());
    match &n.left {
        Some(l) => {
            let ghost d = height(*n);
            proof {
                assert(d >= 1);
                assert(full(**l, (d - 1) as nat));
                assert(full(*n.right->Some_0, (d - 1) as nat));
                lemma_full_height(**l, (d - 1) as nat);
                lemma_full_height(*n.right->Some_0, (d - 1) as nat);
            }
            match &n.right {
                Some(r) => {
                    let lc = clone_node(&**l);
                    let rc = clone_node(&**r);
                    let out = Node::new_internal(h, Box::new(lc), Box::new(rc));
                    proof {
                        assert(full(out, d)) by {
                            lemma_full_height(lc, (d - 1) as nat);
                        }
                        lemma_full_height(out, d);
                    }
                    out
                },
                None => {
                    proof {
                        assert(false);
                    }
                    Node::new_leaf(h)
                },
            }
        },
        None => {
            let out = Node::new_leaf(h);
            proof {
                assert(height(*n) == 0);
                assert(n.right is None);
            }
            out
        },
    }
}

/// Building was asked to turn zero items into a tree; an empty input has no
/// root and is rejected.
#[derive(Debug)]
pub struct EmptyInputError;

/// An immutable hash tree over an ordered sequence of items: the root node,
/// the count of original (pre-padding) items, and, for specification only,
/// the digests of those items.
pub struct MerkleTree {
    pub root: Node,
    pub size: usize,
    pub leaves: Ghost<Seq<Seq<u8>>>,
}

impl MerkleTree {
    /// The tree is well formed: the recorded leaf digests are the left prefix
    /// of a perfect tree's frontier, the root digest is the level-wise root
    /// of those leaves, and the tree's depth is the least one whose perfect
    /// width holds all leaves.
    pub open spec fn wf(self) -> bool {
        &&& 1 <= self.size
        &&& self.size as int <= usize::MAX as int / 4
        &&& self.leaves@.len() == self.size as int
        &&& full(self.root, height(self.root))
        &&& self.leaves@.is_prefix_of(frontier(self.root))
        &&& self.root.hash@ == root_of(self.leaves@)
        &&& self.size as int <= pow2(height(self.root))
        &&& pow2(height(self.root)) < 2 * self.size as int
    }

    /// The digests of the given items, in order: the tree's leaf level.
    pub open spec fn leaf_digests(items: Seq<&[u8]>) -> Seq<Seq<u8>> {
        items.map_values(|d: &[u8]| sha3_of(d@))
    }

    /// Hash every item into a leaf and reduce the level pairwise, padding odd
    /// levels by duplicating the last node, until one root remains. The item
    /// count bound is forced by the machine: a larger sequence of item
    /// references cannot exist in addressable memory.
    pub fn build(items: Vec<&[u8]>) -> (r: Result<MerkleTree, EmptyInputError>)
        requires
            items@.len() <= usize::MAX as int / 4,
        ensures
            r is Ok <==> items@.len() >= 1,
            r matches Ok(t) ==> t.wf() && t.size as int == items@.len() && t.leaves@
                == Self::leaf_digests(items@) && t.root.hash@ == root_of(
                Self::leaf_digests(items@),
            ),
    {
        if items.len() == 0 {
            return Err(EmptyInputError);
        }
        let ghost leaf_hashes = Self::leaf_digests(items@);
        let mut leaves: Vec<Box<Node>> = Vec::new();
        let mut i: usize = 0;
        while i < items.len()
            invariant
                i <= items@.len(),
                leaves@.len() == i as int,
                forall|j: int| 0 <= j < i ==> full(*leaves@[j], 0),
                leaf_hashes == Self::leaf_digests(items@),
                leaf_hashes.len() == items@.len(),
                hashes_of(leaves@) == leaf_hashes.take(i as int),
                frontiers(leaves@) == leaf_hashes.take(i as int),
            decreases items@.len() - i,
        {
            let digest = _sha3(items[i]);
            proof {
                assert(digest@ == leaf_hashes[i as int]);
            }
            let leaf = Box::new(Node::new_leaf(digest));
            proof {
                lemma_frontiers_push(leaves@, leaf);
                assert(hashes_of(leaves@.push(leaf)) =~= hashes_of(leaves@).push((*leaf).hash@));
                assert(leaf_hashes.take(i + 1) =~= leaf_hashes.take(i as int).push(
                    leaf_hashes[i as int],
                ));
                assert(frontiers(leaves@) + frontier(*leaf) =~= leaf_hashes.take(i as int).push(
                    leaf_hashes[i as int],
                ));
            }
            leaves.push(leaf);
            i = i + 1;
        }
        proof {
            assert(leaf_hashes.take(items@.len() as int) =~= leaf_hashes);
            assert(full(*leaves@[0], 0));
            lemma_full_height(*leaves@[0], 0);
        }
        let size: usize = leaves.len();
        let mut top = Self::_build_up(leaves);
        let root_box = top.remove(0);
        let tree = MerkleTree { root: *root_box, size, leaves: Ghost(leaf_hashes) };
        proof {
            crate::model::lemma_levels_needed_bounds(size as nat);
            assert(height(tree.root) == levels_needed(size as nat));
            assert(tree.wf());
        }
        Ok(tree)
    }

    /// One reduction round and its recursion: pad an odd level by cloning its
    /// last node, hash consecutive pairs into parents, and repeat on the
    /// parent level until a single node remains. Every input node must root a
    /// perfect subtree of one common depth.
    pub fn _build_up(nodes: Vec<Box<Node>>) -> (r: Vec<Box<Node>>)
        requires
            nodes@.len() >= 1,
            forall|j: int| 0 <= j < nodes@.len() ==> full(*nodes@[j], height(*nodes@[0])),
        ensures
            r@.len() == 1,
            full(*r@[0], height(*r@[0])),
            height(*r@[0]) == height(*nodes@[0]) + levels_needed(nodes@.len()),
            r@[0].hash@ == root_of(hashes_of(nodes@)),
            frontiers(nodes@).is_prefix_of(frontier(*r@[0])),
        decreases nodes@.len(),
    {
        let node_count: usize = nodes.len();
        if node_count == 1 {
            proof {
                assert(hashes_of(nodes@).len() == 1);
                assert(root_of(hashes_of(nodes@)) == hashes_of(nodes@)[0]);
                assert(hashes_of(nodes@)[0] == nodes@[0].hash@);
                lemma_full_height(*nodes@[0], height(*nodes@[0]));
                assert(frontiers(nodes@) =~= frontier(*nodes@[0]) + frontiers(
                    Seq::<Box<Node>>::empty(),
                )) by {
                    assert(nodes@.skip(1) =~= Seq::<Box<Node>>::empty());
                }
                assert(frontiers(nodes@) =~= frontier(*nodes@[0]));
                assert(frontiers(nodes@).is_prefix_of(frontier(*nodes@[0])));
            }
            return nodes;
        }
        let ghost k = height(*nodes@[0]);
        let ghost orig = nodes@;
        let mut nodes = nodes;
        if node_count % 2 == 1 {
            proof {
                lemma_full_height(*nodes@[node_count - 1], k);
            }
            let duplicate = clone_node(&nodes[node_count - 1]);
            let dup_box = Box::new(duplicate);
            proof {
                lemma_frontiers_push(nodes@, dup_box);
            }
            nodes.push(dup_box);
        }
        let ghost padded = nodes@;
        proof {
            assert(padded.len() % 2 == 0);
            assert(padded.len() >= 2);
            assert(hashes_of(padded) =~= pad(hashes_of(orig)));
            assert(forall|j: int| 0 <= j < padded.len() ==> full(*#[trigger] padded[j], k));
            if node_count % 2 == 1 {
                assert(frontiers(padded) == frontiers(orig) + frontier(*padded[padded.len() - 1]));
                assert(frontiers(orig).is_prefix_of(frontiers(padded))) by {
                    assert(frontiers(orig) =~= frontiers(padded).take(frontiers(orig).len() as int));
                }
            } else {
                assert(frontiers(orig).is_prefix_of(frontiers(padded))) by {
                    assert(frontiers(orig) =~= frontiers(padded).take(frontiers(orig).len() as int));
                }
            }
        }
        let mut parents: Vec<Box<Node>> = Vec::new();
        while nodes.len() >= 2
            invariant
                padded.len() % 2 == 0,
                2 * parents@.len() + nodes@.len() == padded.len(),
                nodes@.len() % 2 == 0,
                nodes@ == padded.skip(2 * parents@.len() as int),
                forall|j: int| 0 <= j < padded.len() ==> full(*#[trigger] padded[j], k),
                forall|j: int| 0 <= j < parents@.len() ==> full(*#[trigger] parents@[j], (k + 1) as nat),
                forall|j: int| 0 <= j < parents@.len() ==> (*#[trigger] parents@[j]).hash@
                    == sha3_of(padded[2 * j].hash@ + padded[2 * j + 1].hash@),
                frontiers(parents@) + frontiers(nodes@) == frontiers(padded),
            decreases nodes@.len(),
        {
            let ghost nodes_before = nodes@;
            let ghost p = parents@.len() as int;
            let left_child = nodes.remove(0);
            let right_child = nodes.remove(0);
            proof {
                assert(nodes_before[0] == padded[2 * p]);
                assert(nodes_before[1] == padded[2 * p + 1]);
                assert(nodes@ =~= padded.skip(2 * p + 2));
            }
            let combined_hash = _sha3_leaves(
                left_child.hash.as_slice(),
                right_child.hash.as_slice(),
            );
            let parent = Box::new(Node::new_internal(combined_hash, left_child, right_child));
            proof {
                assert(full(*parent, (k + 1) as nat));
                lemma_frontiers_push(parents@, parent);
                assert(frontiers(nodes_before) == frontier(*nodes_before[0]) + (frontier(
                    *nodes_before[1],
                ) + frontiers(nodes@))) by {
                    let tail = nodes_before.skip(1);
                    assert(frontiers(nodes_before) == frontier(*nodes_before[0]) + frontiers(tail));
                    assert(tail.len() >= 1);
                    assert(frontiers(tail) == frontier(*tail[0]) + frontiers(tail.skip(1)));
                    assert(tail[0] == nodes_before[1]);
                    assert(tail.skip(1) =~= nodes_before.skip(2));
                    assert(nodes@ =~= nodes_before.skip(2));
                    assert(frontiers(tail.skip(1)) == frontiers(nodes@));
                }
                assert((frontiers(parents@) + frontier(*parent)) + frontiers(nodes@) =~= frontiers(
                    parents@,
                ) + (frontier(*parent) + frontiers(nodes@)));
                assert(frontier(*parent) + frontiers(nodes@) =~= frontier(*nodes_before[0]) + (
                frontier(*nodes_before[1]) + frontiers(nodes@)));
            }
            parents.push(parent);
        }
        proof {
            assert(nodes@.len() == 0);
            assert(frontiers(nodes@) =~= Seq::<Seq<u8>>::empty());
            assert(frontiers(parents@) =~= frontiers(parents@) + frontiers(nodes@));
            assert(frontiers(parents@) == frontiers(padded));
            assert(parents@.len() == padded.len() / 2);
            assert(hashes_of(parents@) =~= combine(hashes_of(padded))) by {
                assert(forall|j: int| 0 <= j < padded.len() ==> hashes_of(padded)[j]
                    == (*#[trigger] padded[j]).hash@);
            }
            assert(root_of(hashes_of(orig)) == root_of(hashes_of(parents@))) by {
                assert(hashes_of(orig).len() >= 2);
                assert(root_of(hashes_of(orig)) == root_of(combine(pad(hashes_of(orig)))));
            }
            assert(full(*parents@[0], (k + 1) as nat));
            lemma_full_height(*parents@[0], (k + 1) as nat);
            assert(forall|j: int| 0 <= j < parents@.len() ==> full(
                *#[trigger] parents@[j],
                height(*parents@[0]),
            ));
            assert(levels_needed(orig.len()) == 1 + levels_needed(parents@.len())) by {
                assert(parents@.len() as int == (orig.len() + 1) as int / 2);
            }
        }
        let result = Self::_build_up(parents);
        proof {
            assert(frontiers(orig).is_prefix_of(frontier(*result@[0]))) by {
                assert(frontiers(padded).is_prefix_of(frontier(*result@[0])));
                assert(frontiers(orig) =~= frontier(*result@[0]).take(frontiers(orig).len() as int))
                    by {
                    assert(frontiers(padded) =~= frontier(*result@[0]).take(
                        frontiers(padded).len() as int,
                    ));
                    assert(frontiers(orig) =~= frontiers(padded).take(frontiers(orig).len() as int));
                }
            }
        }
        result
    }

    /// The digest of the tree's root; under well-formedness, the level-wise
    /// root of the tree's leaf digests.
    pub fn get_root_hash(&self) -> (r: &[u8])
        ensures
            r@ == self.root.hash@,
            self.wf() ==> r@ == root_of(self.leaves@),
    {
        self.root.hash.as_slice()
    }

    /// The inclusion proof for the leaf at `index`, or nothing when the index
    /// is out of range: the leaf's position in the padded level is read off
    /// as direction bits, the tree is walked down along them, and the sibling
    /// digest at each level — tagged with the side it sits on — is collected,
    /// ordered from the leaf's immediate sibling up to the root's child.
    pub fn get_proof(&self, index: usize) -> (r: Option<Vec<Vec<u8>>>)
        requires
            self.wf(),
        ensures
            r is Some <==> (index as int) < self.size as int,
            r matches Some(p) ==> views_of(p@) == fproof(frontier(self.root), index as int),
            r matches Some(p) ==> p@.len() == height(self.root),
    {
        if index >= self.size {
            return None;
        }
        let ghost h = height(self.root);
        let ghost hi = h as int;
        proof {
            vstd::arithmetic::power2::lemma_pow2_pos(h);
            assert(pow2(0) == 1) by {
                vstd::arithmetic::power2::lemma2_to64();
            }
        }
        // the padded width of the leaf level: the least power of two at or
        // above the item count
        let mut level_size: usize = 1;
        let ghost mut lk: nat = 0;
        while level_size < self.size
            invariant
                self.wf(),
                1 <= level_size,
                level_size as int == pow2(lk),
                lk == 0 || pow2((lk - 1) as nat) < self.size as int,
            decreases 2 * self.size as int - level_size as int,
        {
            proof {
                lemma_pow2_unfold((lk + 1) as nat);
                lk = lk + 1;
            }
            level_size = level_size * 2;
        }
        proof {
            if lk == 0 {
                assert(self.size == 1);
            } else {
                lemma_pow2_unfold(lk);
            }
            assert(pow2(lk) < 2 * self.size as int);
            crate::model::lemma_pow2_same_range(lk, h, self.size as int);
            assert(level_size as int == pow2(h));
        }
        // read the leaf's direction bits off its position in a complete
        // binary tree numbering
        let mut position: usize = level_size + index;
        let mut directions: Vec<usize> = Vec::new();
        proof {
            assert(undigits(Seq::<usize>::empty()) == 0);
        }
        while position >= 2
            invariant
                1 <= position,
                bits_ok(directions@),
                pow2(h) + index as int == position as int * pow2(directions@.len()) + undigits(
                    directions@,
                ),
            decreases position,
        {
            let direction: usize = position % 2;
            let ghost pos_old = position as int;
            let ghost j = directions@.len();
            position = position / 2;
            proof {
                crate::model::lemma_undigits_push(directions@, direction);
                lemma_pow2_unfold((j + 1) as nat);
                assert(pos_old == 2 * (position as int) + direction as int);
                assert(pos_old * pow2(j) == (position as int) * pow2((j + 1) as nat) + (
                direction as int) * pow2(j)) by (nonlinear_arith)
                    requires
                        pos_old == 2 * (position as int) + direction as int,
                        pow2((j + 1) as nat) == 2 * pow2(j),
                ;
            }
            directions.push(direction);
        }
        proof {
            assert(position == 1);
            crate::model::lemma_undigits_bound(directions@);
            assert(pow2(h) + index as int == pow2(directions@.len()) + undigits(directions@));
            crate::model::lemma_pow2_plus_unique(
                h,
                directions@.len(),
                index as int,
                undigits(directions@),
            );
            assert(directions@.len() == hi);
            assert(undigits(directions@) == index as int);
        }
        let ghost dbits = directions@;
        // bits were collected leaf-to-root; the walk consumes them
        // root-to-leaf
        let directions = reversed(directions);
        let dir_count: usize = directions.len();
        let mut path: Vec<Vec<u8>> = Vec::new();
        let mut node: &Node = &self.root;
        let ghost f_root = frontier(self.root);
        let ghost mut i_rem: int = index as int;
        proof {
            assert(dbits.take(hi) =~= dbits);
            assert(views_of(path@) =~= Seq::<Seq<u8>>::empty());
            assert(views_of(path@).reverse() =~= Seq::<Seq<u8>>::empty());
            assert(fproof(f_root, index as int) + views_of(path@).reverse() =~= fproof(
                f_root,
                index as int,
            ));
        }
        let mut j: usize = 0;
        while j < dir_count
            invariant
                j <= dir_count,
                dir_count as int == hi,
                hi == h as int,
                dbits.len() == hi,
                bits_ok(dbits),
                directions@.len() == hi,
                forall|k2: int| 0 <= k2 < hi ==> directions@[k2] == dbits[hi - 1 - k2],
                path@.len() == j as int,
                full(*node, (h - j as nat) as nat),
                i_rem == undigits(dbits.take(hi - j as int)),
                fproof(f_root, index as int) == fproof(frontier(*node), i_rem) + views_of(
                    path@,
                ).reverse(),
            decreases dir_count - j,
        {
            let ghost d_rem = (h - j as nat) as nat;
            let ghost low = dbits.take(hi - j - 1);
            let ghost bit = dbits[hi - j - 1];
            proof {
                assert(d_rem >= 1);
                vstd::arithmetic::power2::lemma_pow2_pos((d_rem - 1) as nat);
                assert(dbits.take(hi - j as int) =~= low.push(bit));
                assert(bits_ok(low)) by {
                    assert(forall|k2: int| 0 <= k2 < low.len() ==> low[k2] == #[trigger] dbits[k2]);
                }
                crate::model::lemma_undigits_push(low, bit);
                crate::model::lemma_undigits_bound(low);
                assert(low.len() == (d_rem - 1) as nat);
                assert(i_rem == undigits(low) + bit * pow2((d_rem - 1) as nat));
                assert(0 <= i_rem < pow2(d_rem)) by {
                    lemma_pow2_unfold(d_rem);
                }
                lemma_fproof_step(*node, d_rem, i_rem);
            }
            let dir: usize = directions[j];
            proof {
                assert(dir == dbits[hi - 1 - j]);
                assert(hi - 1 - j == hi - j - 1);
            }
            match (&node.left, &node.right) {
                (Some(l), Some(r_)) => {
                    let ghost node_old = *node;
                    let ghost path_old = path@;
                    if dir == 1 {
                        proof {
                            assert(i_rem >= pow2((d_rem - 1) as nat));
                        }
                        let mut hash = copy_bytes(l.hash.as_slice());
                        hash.push(LEFT_TAG);
                        let ghost entry = l.hash@.push(LEFT_TAG);
                        proof {
                            assert(hash@ == entry);
                        }
                        path.push(hash);
                        node = &**r_;
                        proof {
                            i_rem = i_rem - pow2((d_rem - 1) as nat);
                            assert(i_rem == undigits(low));
                            assert(fproof(frontier(node_old), undigits(low) + pow2(
                                (d_rem - 1) as nat,
                            )) == fproof(frontier(*node), i_rem) + seq![entry]);
                            assert(views_of(path@) =~= views_of(path_old).push(entry));
                            assert(views_of(path_old).push(entry).reverse() =~= seq![entry]
                                + views_of(path_old).reverse());
                            assert((fproof(frontier(*node), i_rem) + seq![entry]) + views_of(
                                path_old,
                            ).reverse() =~= fproof(frontier(*node), i_rem) + (seq![entry]
                                + views_of(path_old).reverse()));
                        }
                    } else {
                        proof {
                            assert(bit == 0);
                            assert(i_rem == undigits(low));
                            assert(i_rem < pow2((d_rem - 1) as nat));
                        }
                        let mut hash = copy_bytes(r_.hash.as_slice());
                        hash.push(RIGHT_TAG);
                        let ghost entry = r_.hash@.push(RIGHT_TAG);
                        proof {
                            assert(hash@ == entry);
                        }
                        path.push(hash);
                        node = &**l;
                        proof {
                            assert(fproof(frontier(node_old), i_rem) == fproof(
                                frontier(*node),
                                i_rem,
                            ) + seq![entry]);
                            assert(views_of(path@) =~= views_of(path_old).push(entry));
                            assert(views_of(path_old).push(entry).reverse() =~= seq![entry]
                                + views_of(path_old).reverse());
                            assert((fproof(frontier(*node), i_rem) + seq![entry]) + views_of(
                                path_old,
                            ).reverse() =~= fproof(frontier(*node), i_rem) + (seq![entry]
                                + views_of(path_old).reverse()));
                        }
                    }
                },
                _ => {
                    proof {
                        assert(false);
                    }
                    return None;
                },
            }
            j = j + 1;
        }
        proof {
            assert(full(*node, 0));
            assert(frontier(*node) =~= seq![node.hash@]);
            assert(dbits.take(0) =~= Seq::<usize>::empty());
            assert(i_rem == 0);
            assert(fproof(frontier(*node), 0) =~= Seq::<Seq<u8>>::empty());
            assert(fproof(f_root, index as int) =~= views_of(path@).reverse());
        }
        let result = reversed(path);
        proof {
            assert(views_of(result@) =~= views_of(path@).reverse());
        }
        Some(result)
    }
}

} // verus!
