use fri_oracle::field::FieldContext;
use fri_oracle::hash::{AlgebraicSponge, HashOut, Hasher};
use fri_oracle::merkle_tree::{verify_merkle_proof, MerkleProof, MerkleTree};

fn leaves(n: u64) -> Vec<Vec<u64>> {
    (0..n).map(|i| vec![i, i * i, 7 * i + 1]).collect()
}

fn subtree(hasher: &AlgebraicSponge, leaves: &[Vec<u64>]) -> HashOut {
    if leaves.len() == 1 {
        hasher.hash_no_pad(&leaves[0])
    } else {
        let half = leaves.len() / 2;
        hasher.two_to_one(subtree(hasher, &leaves[..half]), subtree(hasher, &leaves[half..]))
    }
}

#[test]
fn cap_of_height_zero_is_the_root() {
    let ctx = FieldContext::goldilocks(2);
    let hasher = AlgebraicSponge::new(&ctx);
    let tree = MerkleTree::new(&hasher, leaves(8), 0);
    assert_eq!(tree.cap.0.len(), 1);
    assert!(tree.cap.0[0].same(&subtree(&hasher, &leaves(8))));
    assert_eq!(tree.digests.len(), 4);
}

#[test]
fn cap_of_height_h_has_two_to_the_h_digests() {
    let ctx = FieldContext::goldilocks(2);
    let hasher = AlgebraicSponge::new(&ctx);
    let all = leaves(16);
    for h in 0..=4usize {
        let tree = MerkleTree::new(&hasher, all.clone(), h);
        assert_eq!(tree.cap.0.len(), 1 << h);
        let width = 16 >> h;
        for i in 0..(1 << h) {
            let expected = subtree(&hasher, &all[i * width..(i + 1) * width]);
            assert!(tree.cap.0[i].same(&expected));
        }
    }
}

#[test]
fn a_tree_of_one_leaf() {
    let ctx = FieldContext::goldilocks(2);
    let hasher = AlgebraicSponge::new(&ctx);
    let tree = MerkleTree::new(&hasher, vec![vec![1, 2, 3]], 0);
    assert_eq!(tree.cap.0.len(), 1);
    assert!(tree.cap.0[0].same(&hasher.hash_no_pad(&vec![1, 2, 3])));
    let proof = tree.prove(0);
    assert!(proof.siblings.is_empty());
    assert!(verify_merkle_proof(&hasher, &vec![1, 2, 3], 0, &tree.cap, &proof));
    assert!(!verify_merkle_proof(&hasher, &vec![1, 2, 4], 0, &tree.cap, &proof));
}

#[test]
fn proofs_of_a_tree_verify_against_its_cap() {
    let ctx = FieldContext::goldilocks(2);
    let hasher = AlgebraicSponge::new(&ctx);
    let all = leaves(16);
    for h in 0..=4usize {
        let tree = MerkleTree::new(&hasher, all.clone(), h);
        for i in 0..16 {
            let proof = tree.prove(i);
            assert_eq!(proof.siblings.len(), 4 - h);
            assert!(verify_merkle_proof(&hasher, &all[i], i, &tree.cap, &proof));
        }
    }
}

#[test]
fn altered_proofs_do_not_verify() {
    let ctx = FieldContext::goldilocks(2);
    let hasher = AlgebraicSponge::new(&ctx);
    let all = leaves(8);
    let tree = MerkleTree::new(&hasher, all.clone(), 1);
    let proof = tree.prove(5);
    assert!(verify_merkle_proof(&hasher, &all[5], 5, &tree.cap, &proof));
    // another leaf, another index, an index beyond the cap
    assert!(!verify_merkle_proof(&hasher, &all[4], 5, &tree.cap, &proof));
    assert!(!verify_merkle_proof(&hasher, &all[5], 4, &tree.cap, &proof));
    assert!(!verify_merkle_proof(&hasher, &all[5], 13, &tree.cap, &proof));
    // a changed sibling
    let mut siblings = proof.siblings.clone();
    siblings[0] = HashOut::zero();
    assert!(!verify_merkle_proof(&hasher, &all[5], 5, &tree.cap, &MerkleProof { siblings }));
    // a path that is too short
    let siblings = proof.siblings[..1].to_vec();
    assert!(!verify_merkle_proof(&hasher, &all[5], 5, &tree.cap, &MerkleProof { siblings }));
}

#[test]
fn the_sponge_separates_inputs() {
    let ctx = FieldContext::goldilocks(2);
    let hasher = AlgebraicSponge::new(&ctx);
    let a = hasher.hash_no_pad(&vec![1, 2, 3]);
    let b = hasher.hash_no_pad(&vec![1, 2, 4]);
    let c = hasher.hash_no_pad(&vec![1, 2, 3]);
    assert!(a.same(&c));
    assert!(!a.same(&b));
    assert!(hasher.hash_no_pad(&vec![]).same(&HashOut::zero()));
    assert!(!hasher.hash_no_pad(&vec![0]).same(&HashOut::zero()));
    assert!(!hasher.two_to_one(a, b).same(&hasher.two_to_one(b, a)));
    let mut both = a.elements.to_vec();
    both.extend_from_slice(&b.elements);
    assert!(hasher.two_to_one(a, b).same(&hasher.hash_no_pad(&both)));
    assert!(a.elements.iter().all(|x| *x < ctx.modulus));
}

#[test]
fn the_sponge_in_a_small_field() {
    let ctx = FieldContext::new(97, 5, 28, 5, 2, 5).unwrap();
    let hasher = AlgebraicSponge::new(&ctx);
    let digest = hasher.hash_no_pad(&vec![200, 3]);
    assert!(digest.elements.iter().all(|x| *x < 97));
    // inputs are taken modulo the field's order
    assert!(digest.same(&hasher.hash_no_pad(&vec![6, 100])));
}
