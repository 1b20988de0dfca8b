//! A binary Merkle tree over rows of field elements, committed to by a cap:
//! the digests at a chosen height below the root.

use crate::bits::{lemma_pow2_log2, log2_strict, spec_log2};
use crate::hash::{HashOut, Hasher};
use vstd::arithmetic::power2::{is_pow2, lemma_pow2_pos, lemma_pow2_unfold, pow2};
use vstd::prelude::*;

verus! {

/// The digest of the subtree whose root stands `level` levels above the
/// leaves, at position `index` of that level.
pub open spec fn node_digest<H: Hasher>(
    hasher: &H,
    leaves: Seq<Vec<u64>>,
    level: nat,
    index: int,
) -> HashOut
    decreases level,
{
    if level == 0 {
        hasher.spec_hash_no_pad(leaves[index]@)
    } else {
        hasher.spec_two_to_one(
            node_digest(hasher, leaves, (level - 1) as nat, 2 * index),
            node_digest(hasher, leaves, (level - 1) as nat, 2 * index + 1),
        )
    }
}

/// The position beside `index` under the same parent.
pub open spec fn sibling_index(index: int) -> int {
    if index % 2 == 0 {
        index + 1
    } else {
        index - 1
    }
}

/// The digest reached from a leaf by hashing it and then folding in the
/// given siblings, bottom-up.
pub open spec fn path_digest<H: Hasher>(
    hasher: &H,
    leaf: Seq<u64>,
    index: int,
    siblings: Seq<HashOut>,
) -> HashOut
    decreases siblings.len(),
{
    if siblings.len() == 0 {
        hasher.spec_hash_no_pad(leaf)
    } else {
        let below = path_digest(hasher, leaf, index, siblings.drop_last());
        let position = index / (pow2((siblings.len() - 1) as nat) as int);
        if position % 2 == 0 {
            hasher.spec_two_to_one(below, siblings.last())
        } else {
            hasher.spec_two_to_one(siblings.last(), below)
        }
    }
}

/// Whether the siblings lead from the leaf at `index` to its entry of the cap.
pub open spec fn spec_verify_merkle_proof<H: Hasher>(
    hasher: &H,
    leaf: Seq<u64>,
    index: int,
    cap: Seq<HashOut>,
    siblings: Seq<HashOut>,
) -> bool {
    let top = index / (pow2(siblings.len()) as int);
    top < cap.len() && cap[top] == path_digest(hasher, leaf, index, siblings)
}

/// The public commitment of a tree: the digests at the cap's height.
#[derive(Debug)]
pub struct MerkleCap(pub Vec<HashOut>);

/// The siblings on the way from a leaf up to the cap, lowest first.
#[derive(Debug)]
pub struct MerkleProof {
    pub siblings: Vec<HashOut>,
}

/// A Merkle tree with its leaves, the digests of every level up to the cap,
/// and the cap itself.
#[derive(Debug)]
pub struct MerkleTree {
    /// The committed rows.
    pub leaves: Vec<Vec<u64>>,
    /// `digests[k]` holds the digests `k` levels above the leaves.
    pub digests: Vec<Vec<HashOut>>,
    /// The topmost level of `digests`.
    pub cap: MerkleCap,
}

impl MerkleTree {
    /// The number of levels between the leaves and the root.
    pub open spec fn height(self) -> nat {
        spec_log2(self.leaves.len() as int)
    }

    /// The number of levels between the cap and the root.
    pub open spec fn cap_height(self) -> int {
        self.height() - (self.digests.len() - 1)
    }

    /// The tree's shape: a power-of-two number of leaves, one level of
    /// digests for each height up to the cap, each half as wide as the one
    /// below, and the cap equal to the topmost level.
    pub open spec fn shaped(self) -> bool {
        &&& is_pow2(self.leaves.len() as int)
        &&& 1 <= self.digests.len() <= self.height() + 1
        &&& forall|k: int|
            0 <= k < self.digests.len() ==> (#[trigger] self.digests[k]).len() == pow2(
                (self.height() - k) as nat,
            )
        &&& self.cap.0@ == self.digests[self.digests.len() - 1]@
    }

    /// The tree's invariant under a hasher: its shape, and every digest is
    /// that of the subtree below it.
    pub open spec fn wf<H: Hasher>(self, hasher: &H) -> bool {
        &&& self.shaped()
        &&& forall|k: int, i: int|
            0 <= k < self.digests.len() && 0 <= i < self.digests[k].len()
                ==> #[trigger] self.digests[k][i] == node_digest(
                hasher,
                self.leaves@,
                k as nat,
                i,
            )
    }

    /// Builds the tree over `leaves`, up to the level that holds
    /// `2^cap_height` digests.
    pub fn new<H: Hasher>(hasher: &H, leaves: Vec<Vec<u64>>, cap_height: usize) -> (tree:
        MerkleTree)
        requires
            is_pow2(leaves.len() as int),
            cap_height <= spec_log2(leaves.len() as int),
        ensures
            tree.wf(hasher),
            tree.leaves == leaves,
            tree.cap_height() == cap_height,
            tree.cap.0.len() == pow2(cap_height as nat),
            forall|i: int|
                0 <= i < tree.cap.0.len() ==> #[trigger] tree.cap.0[i] == node_digest(
                    hasher,
                    leaves@,
                    (spec_log2(leaves.len() as int) - cap_height) as nat,
                    i,
                ),
    {
        let n = leaves.len();
        let height = log2_strict(n);
        let mut digests: Vec<Vec<HashOut>> = Vec::new();
        let mut bottom: Vec<HashOut> = Vec::new();
        let mut i: usize = 0;
        while i < n
            invariant
                i <= n,
                n == leaves.len(),
                bottom.len() == i,
                forall|j: int|
                    0 <= j < i ==> #[trigger] bottom[j] == node_digest(hasher, leaves@, 0, j),
            decreases n - i,
        {
            bottom.push(hasher.hash_no_pad(&leaves[i]));
            i = i + 1;
        }
        digests.push(bottom);
        let top_level = height - cap_height;
        let mut level: usize = 0;
        let mut width: usize = n;
        while level < top_level
            invariant
                level <= top_level,
                top_level == height - cap_height,
                cap_height <= height,
                n == leaves.len(),
                n == pow2(height as nat),
                height == spec_log2(n as int),
                digests.len() == level + 1,
                width == pow2((height - level) as nat),
                forall|k: int|
                    0 <= k <= level ==> (#[trigger] digests[k]).len() == pow2((height - k) as nat),
                forall|k: int, j: int|
                    0 <= k <= level && 0 <= j < digests[k].len() ==> #[trigger] digests[k][j]
                        == node_digest(hasher, leaves@, k as nat, j),
            decreases top_level - level,
        {
            proof {
                lemma_pow2_unfold((height - level) as nat);
            }
            let half = width / 2;
            let mut next: Vec<HashOut> = Vec::new();
            let mut j: usize = 0;
            while j < half
                invariant
                    j <= half,
                    width == 2 * half,
                    digests.len() == level + 1,
                    digests[level as int].len() == width,
                    forall|t: int|
                        0 <= t < width ==> #[trigger] digests[level as int][t] == node_digest(
                            hasher,
                            leaves@,
                            level as nat,
                            t,
                        ),
                    next.len() == j,
                    forall|t: int|
                        0 <= t < j ==> #[trigger] next[t] == node_digest(
                            hasher,
                            leaves@,
                            (level + 1) as nat,
                            t,
                        ),
                decreases half - j,
            {
                let left = digests[level][2 * j];
                let right = digests[level][2 * j + 1];
                next.push(hasher.two_to_one(left, right));
                j = j + 1;
            }
            digests.push(next);
            level = level + 1;
            width = half;
        }
        let mut cap: Vec<HashOut> = Vec::new();
        let mut j: usize = 0;
        while j < width
            invariant
                j <= width,
                digests.len() == level + 1,
                digests[level as int].len() == width,
                cap.len() == j,
                forall|t: int| 0 <= t < j ==> cap[t] == digests[level as int][t],
            decreases width - j,
        {
            cap.push(digests[level][j]);
            j = j + 1;
        }
        proof {
            assert(cap@ =~= digests[level as int]@);
        }
        MerkleTree { leaves, digests, cap: MerkleCap(cap) }
    }

    /// The siblings on the way from the leaf at `leaf_index` up to the cap.
    pub fn prove(&self, leaf_index: usize) -> (proof: MerkleProof)
        requires
            self.shaped(),
            leaf_index < self.leaves.len(),
        ensures
            proof.siblings.len() == self.digests.len() - 1,
            forall|k: int|
                0 <= k < proof.siblings.len() ==> #[trigger] proof.siblings[k]
                    == self.digests[k][sibling_index(leaf_index as int / (pow2(k as nat) as int))],
    {
        let levels = self.digests.len() - 1;
        let mut siblings: Vec<HashOut> = Vec::new();
        let mut position: usize = leaf_index;
        let mut k: usize = 0;
        proof {
            vstd::arithmetic::power2::lemma2_to64();
            lemma_pow2_log2(self.leaves.len() as int);
        }
        while k < levels
            invariant
                k <= levels,
                levels == self.digests.len() - 1,
                self.shaped(),
                leaf_index < self.leaves.len(),
                position == leaf_index as int / (pow2(k as nat) as int),
                position < pow2((self.height() - k) as nat),
                siblings.len() == k,
                forall|t: int|
                    0 <= t < k ==> #[trigger] siblings[t] == self.digests[t][sibling_index(
                        leaf_index as int / (pow2(t as nat) as int),
                    )],
            decreases levels - k,
        {
            proof {
                lemma_pow2_unfold((self.height() - k) as nat);
                lemma_pow2_unfold((k + 1) as nat);
                lemma_pow2_pos(k as nat);
                vstd::arithmetic::div_mod::lemma_div_denominator(
                    leaf_index as int,
                    pow2(k as nat) as int,
                    2,
                );
                assert(self.digests[k as int].len() == pow2((self.height() - k) as nat));
            }
            let beside = if position % 2 == 0 {
                position + 1
            } else {
                position - 1
            };
            siblings.push(self.digests[k][beside]);
            position = position / 2;
            k = k + 1;
        }
        MerkleProof { siblings }
    }
}

/// Checks that the siblings lead from `leaf_data` at `leaf_index` to the
/// entry of `cap` above it.
pub fn verify_merkle_proof<H: Hasher>(
    hasher: &H,
    leaf_data: &Vec<u64>,
    leaf_index: usize,
    cap: &MerkleCap,
    proof: &MerkleProof,
) -> (ok: bool)
    ensures
        ok == spec_verify_merkle_proof(
            hasher,
            leaf_data@,
            leaf_index as int,
            cap.0@,
            proof.siblings@,
        ),
{
    let mut current = hasher.hash_no_pad(leaf_data);
    let mut position: usize = leaf_index;
    let mut k: usize = 0;
    proof {
        vstd::arithmetic::power2::lemma2_to64();
        assert(proof.siblings@.take(0).len() == 0);
    }
    while k < proof.siblings.len()
        invariant
            k <= proof.siblings.len(),
            position == leaf_index as int / (pow2(k as nat) as int),
            current == path_digest(
                hasher,
                leaf_data@,
                leaf_index as int,
                proof.siblings@.take(k as int),
            ),
        decreases proof.siblings.len() - k,
    {
        proof {
            lemma_pow2_unfold((k + 1) as nat);
            lemma_pow2_pos(k as nat);
            vstd::arithmetic::div_mod::lemma_div_denominator(
                leaf_index as int,
                pow2(k as nat) as int,
                2,
            );
            assert(proof.siblings@.take(k + 1).drop_last() == proof.siblings@.take(k as int));
        }
        let sibling = proof.siblings[k];
        current = if position % 2 == 0 {
            hasher.two_to_one(current, sibling)
        } else {
            hasher.two_to_one(sibling, current)
        };
        position = position / 2;
        k = k + 1;
    }
    proof {
        assert(proof.siblings@.take(k as int) == proof.siblings@);
    }
    if position < cap.0.len() {
        cap.0[position].same(&current)
    } else {
        false
    }
}

/// Walking up from a leaf of a tree through its own siblings passes through
/// the tree's own digests.
pub proof fn lemma_path_follows_tree<H: Hasher>(
    hasher: &H,
    tree: MerkleTree,
    leaf_index: int,
    siblings: Seq<HashOut>,
)
    requires
        tree.wf(hasher),
        0 <= leaf_index < tree.leaves.len(),
        siblings.len() <= tree.digests.len() - 1,
        forall|k: int|
            0 <= k < siblings.len() ==> #[trigger] siblings[k] == tree.digests[k][sibling_index(
                leaf_index / (pow2(k as nat) as int),
            )],
    ensures
        0 <= leaf_index / (pow2(siblings.len()) as int) < pow2(
            (tree.height() - siblings.len()) as nat,
        ),
        path_digest(hasher, tree.leaves[leaf_index]@, leaf_index, siblings) == node_digest(
            hasher,
            tree.leaves@,
            siblings.len(),
            leaf_index / (pow2(siblings.len()) as int),
        ),
    decreases siblings.len(),
{
    vstd::arithmetic::power2::lemma2_to64();
    lemma_pow2_log2(tree.leaves.len() as int);
    if siblings.len() > 0 {
        let k = (siblings.len() - 1) as nat;
        lemma_path_follows_tree(hasher, tree, leaf_index, siblings.drop_last());
        lemma_pow2_unfold(k + 1);
        lemma_pow2_unfold((tree.height() - k) as nat);
        lemma_pow2_pos(k);
        vstd::arithmetic::div_mod::lemma_div_denominator(leaf_index, pow2(k) as int, 2);
        let position = leaf_index / (pow2(k) as int);
        let beside = sibling_index(position);
        assert(tree.digests[k as int].len() == pow2((tree.height() - k) as nat));
        assert(siblings[k as int] == tree.digests[k as int][beside]);
        assert(tree.digests[k as int][beside] == node_digest(hasher, tree.leaves@, k, beside));
    }
}

/// A proof that a tree hands out for one of its leaves verifies against the
/// tree's cap.
pub proof fn lemma_proof_verifies<H: Hasher>(
    hasher: &H,
    tree: MerkleTree,
    leaf_index: int,
    siblings: Seq<HashOut>,
)
    requires
        tree.wf(hasher),
        0 <= leaf_index < tree.leaves.len(),
        siblings.len() == tree.digests.len() - 1,
        forall|k: int|
            0 <= k < siblings.len() ==> #[trigger] siblings[k] == tree.digests[k][sibling_index(
                leaf_index / (pow2(k as nat) as int),
            )],
    ensures
        spec_verify_merkle_proof(
            hasher,
            tree.leaves[leaf_index]@,
            leaf_index,
            tree.cap.0@,
            siblings,
        ),
{
    lemma_path_follows_tree(hasher, tree, leaf_index, siblings);
    let top = leaf_index / (pow2(siblings.len()) as int);
    let last = tree.digests.len() - 1;
    assert(tree.digests[last].len() == pow2((tree.height() - last) as nat));
    assert(tree.digests[last][top] == node_digest(hasher, tree.leaves@, last as nat, top));
}

} // verus!
