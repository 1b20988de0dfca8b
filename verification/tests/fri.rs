use fri_oracle::challenger::Challenger;
use fri_oracle::extension_polynomial::PolynomialCoeffsExt;
use fri_oracle::field::FieldContext;
use fri_oracle::fri::{
    FriBatchInfo, FriConfig, FriInstanceInfo, FriOracleInfo, FriParams, FriPolynomialInfo,
};
use fri_oracle::fri_prover::{
    check_pow_response, coset_values_reversed, fold_polynomial, fri_committed_trees,
    fri_proof_of_work, fri_prover_query_round, layer_leaves,
};
use fri_oracle::hash::{AlgebraicSponge, HashOut, Hasher};
use fri_oracle::merkle_tree::{verify_merkle_proof, MerkleCap, MerkleTree};
use fri_oracle::oracle::{opening_polynomial, PolynomialBatch};
use fri_oracle::polynomial::PolynomialCoeffs;

fn small_field() -> FieldContext {
    FieldContext::new(97, 5, 28, 5, 2, 5).unwrap()
}

fn params(pow_bits: u32, cap_height: usize) -> FriParams {
    FriParams {
        config: FriConfig {
            rate_bits: 1,
            cap_height,
            proof_of_work_bits: pow_bits,
            num_query_rounds: 5,
        },
        hiding: false,
        degree_bits: 2,
        reduction_arity_bits: vec![1, 1],
    }
}

fn instance() -> FriInstanceInfo {
    let info = |o: usize, p: usize| FriPolynomialInfo { oracle_index: o, polynomial_index: p };
    FriInstanceInfo {
        oracles: vec![
            FriOracleInfo { num_polys: 2, blinding: false },
            FriOracleInfo { num_polys: 1, blinding: true },
        ],
        batches: vec![
            FriBatchInfo { point: vec![13, 2], polynomials: vec![info(0, 0), info(0, 1), info(1, 0)] },
            FriBatchInfo { point: vec![40, 77], polynomials: vec![info(0, 1)] },
        ],
    }
}

fn oracles(ctx: &FieldContext, hasher: &AlgebraicSponge) -> (PolynomialBatch, PolynomialBatch) {
    let first = PolynomialBatch::from_coeffs(
        ctx,
        hasher,
        vec![PolynomialCoeffs::new(vec![1, 2, 3, 4]), PolynomialCoeffs::new(vec![96, 0, 5, 50])],
        1,
        false,
        0,
        None,
    );
    let second = PolynomialBatch::from_coeffs(
        ctx,
        hasher,
        vec![PolynomialCoeffs::new(vec![9, 8, 7, 6])],
        1,
        true,
        1,
        None,
    );
    (first, second)
}

#[test]
fn transcript_is_a_function_of_what_was_observed() {
    let ctx = small_field();
    let hasher = AlgebraicSponge::new(&ctx);
    let mut a = Challenger::new();
    let mut b = Challenger::new();
    a.observe_elements(&vec![1, 2, 3]);
    b.observe_element(1);
    b.observe_element(2);
    b.observe_element(3);
    let from_a = a.get_n_challenges(&hasher, &ctx, 6);
    let from_b = b.get_n_challenges(&hasher, &ctx, 6);
    assert_eq!(from_a, from_b);
    assert!(from_a.iter().all(|c| *c < 97));
    let mut c = Challenger::new();
    c.observe_elements(&vec![1, 2, 4]);
    assert_ne!(c.get_n_challenges(&hasher, &ctx, 6), from_a);
}

#[test]
fn challenges_come_from_the_digest_last_element_first() {
    let ctx = FieldContext::goldilocks(2);
    let hasher = AlgebraicSponge::new(&ctx);
    let mut challenger = Challenger::new();
    challenger.observe_elements(&vec![10, 20]);
    let digest = hasher.hash_no_pad(&vec![0, 0, 0, 0, 10, 20]);
    assert_eq!(challenger.get_challenge(&hasher, &ctx), digest.elements[3]);
    assert_eq!(challenger.get_challenge(&hasher, &ctx), digest.elements[2]);
    assert_eq!(challenger.get_extension_challenge(&hasher, &ctx), vec![digest.elements[1], digest.elements[0]]);
    // with nothing left, the digest is hashed again
    let mut again = digest.elements.to_vec();
    again.extend_from_slice(&[]);
    let next = hasher.hash_no_pad(&again);
    assert_eq!(challenger.get_challenge(&hasher, &ctx), next.elements[3]);
    // observing drops the challenges that were ready
    challenger.observe_element(5);
    let mut input = next.elements.to_vec();
    input.push(5);
    assert_eq!(challenger.get_challenge(&hasher, &ctx), hasher.hash_no_pad(&input).elements[3]);
}

#[test]
fn observing_caps_and_extension_elements_observes_their_elements() {
    let ctx = small_field();
    let hasher = AlgebraicSponge::new(&ctx);
    let digest = HashOut { elements: [1, 2, 3, 4] };
    let other = HashOut { elements: [5, 6, 7, 8] };
    let mut a = Challenger::new();
    a.observe_cap(&MerkleCap(vec![digest, other]));
    a.observe_extension_elements(&vec![vec![9, 10], vec![11, 12]]);
    let mut b = Challenger::new();
    b.observe_hash(&digest);
    b.observe_elements(&vec![5, 6, 7, 8, 9, 10, 11, 12]);
    assert_eq!(a.input_buffer, b.input_buffer);
    assert_eq!(a.get_challenge(&hasher, &ctx), b.get_challenge(&hasher, &ctx));
    let copy = a.duplicate();
    assert_eq!(copy.output_buffer, a.output_buffer);
    assert_eq!(copy.state.elements, a.state.elements);
}

#[test]
fn folding_combines_adjoining_coefficients() {
    let ctx = small_field();
    let f = PolynomialCoeffsExt {
        coeffs: vec![vec![1, 0], vec![2, 0], vec![3, 0], vec![4, 0]],
    };
    // beta = 10: (1 + 20, 3 + 40)
    let folded = fold_polynomial(&ctx, &f, 2, &vec![10, 0]);
    assert_eq!(folded.coeffs, vec![vec![21, 0], vec![43, 0]]);
    // arity four: 1 + 20 + 300 + 4000 = 4321 = 44 * 97 + 53
    let folded = fold_polynomial(&ctx, &f, 4, &vec![10, 0]);
    assert_eq!(folded.coeffs, vec![vec![53, 0]]);
    let same = fold_polynomial(&ctx, &f, 1, &vec![10, 0]);
    assert_eq!(same.coeffs, f.coeffs);
    // a challenge outside the base field: X = (0, 1), X * 2 = (0, 2)
    let folded = fold_polynomial(&ctx, &f, 2, &vec![0, 1]);
    assert_eq!(folded.coeffs, vec![vec![1, 2], vec![3, 4]]);
}

#[test]
fn folding_at_a_point_evaluates_at_its_power() {
    let ctx = small_field();
    let f = PolynomialCoeffsExt {
        coeffs: vec![
            vec![3, 1],
            vec![4, 1],
            vec![5, 9],
            vec![2, 6],
            vec![5, 3],
            vec![5, 8],
            vec![9, 7],
            vec![9, 3],
        ],
    };
    let x = vec![17u64, 60];
    let x2 = ctx.ext_mul(&x, &x);
    // the polynomial folded under beta = x takes at x^2 the value of f at x
    let folded = fold_polynomial(&ctx, &f, 2, &x);
    assert_eq!(folded.eval(&ctx, &x2), f.eval(&ctx, &x));
}

#[test]
fn leaves_of_a_layer_hold_adjoining_values() {
    let values = vec![vec![1u64, 2], vec![3, 4], vec![5, 6], vec![7, 8]];
    assert_eq!(layer_leaves(&values, 2), vec![vec![1, 2, 3, 4], vec![5, 6, 7, 8]]);
    assert_eq!(layer_leaves(&values, 4), vec![vec![1, 2, 3, 4, 5, 6, 7, 8]]);
    assert_eq!(layer_leaves(&values, 1), values);
}

#[test]
fn coset_values_come_in_bit_reversed_order() {
    let ctx = small_field();
    let f = PolynomialCoeffsExt {
        coeffs: vec![vec![1, 2], vec![3, 4], vec![0, 0], vec![0, 0]],
    };
    let natural = f.coset_fft(&ctx, 5).values;
    let reversed = coset_values_reversed(&ctx, &f, 5);
    assert_eq!(reversed, vec![
        natural[0].clone(),
        natural[2].clone(),
        natural[1].clone(),
        natural[3].clone()
    ]);
    // the first two are the values at 5 and -5, which fold together
    assert_eq!(reversed[0], vec![16, 22]);
    assert_eq!(reversed[1], vec![83, 79]);
}

#[test]
fn proof_of_work_finds_the_least_witness() {
    let ctx = FieldContext::goldilocks(2);
    let hasher = AlgebraicSponge::new(&ctx);
    let mut challenger = Challenger::new();
    challenger.observe_elements(&vec![1, 2, 3]);
    let before = challenger.duplicate();
    let witness = fri_proof_of_work(&ctx, &hasher, &mut challenger, 6).unwrap();
    let response = |w: u64| {
        let mut attempt = before.duplicate();
        attempt.observe_element(w);
        attempt.get_challenge(&hasher, &ctx)
    };
    assert!(response(witness) < (1u64 << 58));
    for w in 0..witness {
        assert!(response(w) >= (1u64 << 58));
    }
    let mut replay = before.duplicate();
    replay.observe_element(witness);
    let _ = replay.get_challenge(&hasher, &ctx);
    assert_eq!(replay.output_buffer, challenger.output_buffer);
    assert_eq!(replay.state.elements, challenger.state.elements);

    let mut easy = before.duplicate();
    assert_eq!(fri_proof_of_work(&ctx, &hasher, &mut easy, 0), Some(0));
}

#[test]
fn difficulty_counts_leading_zeros() {
    assert!(check_pow_response(u64::MAX, 0));
    assert!(!check_pow_response(u64::MAX, 1));
    assert!(check_pow_response(u64::MAX >> 1, 1));
    assert!(check_pow_response(1, 63));
    assert!(!check_pow_response(1, 64));
    assert!(check_pow_response(0, 64));
    assert!(!check_pow_response(0, 65));
    assert!(check_pow_response((1 << 54) - 1, 10));
    assert!(!check_pow_response(1 << 54, 10));
}

#[test]
fn opening_proof_from_end_to_end() {
    let ctx = small_field();
    let hasher = AlgebraicSponge::new(&ctx);
    let (first, second) = oracles(&ctx, &hasher);
    let batches = vec![&first, &second];
    let instance = instance();
    for (pow_bits, cap_height) in [(0u32, 0usize), (3, 1)] {
        let fri_params = params(pow_bits, cap_height);
        let mut challenger = Challenger::new();
        challenger.observe_cap(&first.merkle_tree.cap);
        challenger.observe_cap(&second.merkle_tree.cap);
        let mut replay = challenger.duplicate();
        let proof = PolynomialBatch::prove_openings(
            &ctx,
            &hasher,
            &instance,
            &batches,
            &mut challenger,
            &fri_params,
        )
        .unwrap();

        // the verifier's side of the transcript
        let alpha = replay.get_extension_challenge(&hasher, &ctx);
        let final_poly = opening_polynomial(&ctx, &instance, &batches, alpha);
        assert_eq!(final_poly.coeffs.len(), 4);
        let mut coeffs = final_poly.lde(&ctx, 1);
        assert_eq!(coeffs.coeffs.len(), 8);
        assert_eq!(proof.commit_phase_merkle_caps.len(), 2);
        let mut shift = ctx.coset_shift;
        let mut layer_trees = Vec::new();
        for k in 0..2 {
            let values = coset_values_reversed(&ctx, &coeffs, shift);
            let tree = MerkleTree::new(&hasher, layer_leaves(&values, 2), cap_height);
            assert_eq!(proof.commit_phase_merkle_caps[k].0.len(), 1 << cap_height);
            for i in 0..tree.cap.0.len() {
                assert!(tree.cap.0[i].same(&proof.commit_phase_merkle_caps[k].0[i]));
            }
            replay.observe_cap(&proof.commit_phase_merkle_caps[k]);
            let beta = replay.get_extension_challenge(&hasher, &ctx);
            coeffs = fold_polynomial(&ctx, &coeffs, 2, &beta);
            shift = ctx.mul(shift, shift);
            layer_trees.push(tree);
        }
        // two coefficients are left, of which the rate made the upper one zero
        assert_eq!(coeffs.coeffs.len(), 2);
        assert_eq!(coeffs.coeffs[1], vec![0, 0]);
        assert_eq!(proof.final_poly.coeffs, vec![coeffs.coeffs[0].clone()]);
        replay.observe_extension_elements(&proof.final_poly.coeffs);

        // the proof of work
        let mut attempt = replay.duplicate();
        attempt.observe_element(proof.pow_witness);
        let response = attempt.get_challenge(&hasher, &ctx);
        assert!(check_pow_response(response, pow_bits));
        replay.observe_element(proof.pow_witness);
        let _ = replay.get_challenge(&hasher, &ctx);

        // the queries
        assert_eq!(proof.query_round_proofs.len(), 5);
        let indices = replay.get_n_challenges(&hasher, &ctx, 5);
        for (q, round) in proof.query_round_proofs.iter().enumerate() {
            let mut x_index = (indices[q] % 8) as usize;
            assert_eq!(round.initial_trees_proof.evals_proofs.len(), 2);
            for (o, opening) in round.initial_trees_proof.evals_proofs.iter().enumerate() {
                assert_eq!(opening.evals, batches[o].merkle_tree.leaves[x_index]);
                assert!(verify_merkle_proof(
                    &hasher,
                    &opening.evals,
                    x_index,
                    &batches[o].merkle_tree.cap,
                    &opening.merkle_proof
                ));
            }
            assert_eq!(round.steps.len(), 2);
            for (k, step) in round.steps.iter().enumerate() {
                x_index >>= 1;
                assert_eq!(step.evals, layer_trees[k].leaves[x_index]);
                assert_eq!(step.evals.len(), 4);
                assert!(verify_merkle_proof(
                    &hasher,
                    &step.evals,
                    x_index,
                    &proof.commit_phase_merkle_caps[k],
                    &step.merkle_proof
                ));
            }
        }
        // the prover's transcript ended where the verifier's did
        assert_eq!(challenger.state.elements, replay.state.elements);
        assert_eq!(challenger.output_buffer, replay.output_buffer);
    }
}

#[test]
fn commitment_and_query_round_by_themselves() {
    let ctx = small_field();
    let hasher = AlgebraicSponge::new(&ctx);
    let coeffs = PolynomialCoeffsExt {
        coeffs: vec![
            vec![3, 1],
            vec![4, 1],
            vec![5, 9],
            vec![2, 6],
            vec![0, 0],
            vec![0, 0],
            vec![0, 0],
            vec![0, 0],
        ],
    };
    let mut challenger = Challenger::new();
    let commitment =
        fri_committed_trees(&ctx, &hasher, coeffs, &mut challenger, &vec![2], 0);
    assert_eq!(commitment.trees.len(), 1);
    assert_eq!(commitment.betas.len(), 1);
    assert_eq!(commitment.trees[0].leaves.len(), 2);
    assert_eq!(commitment.trees[0].leaves[0].len(), 8);
    assert_eq!(commitment.final_coeffs.coeffs.len(), 2);
    assert_eq!(commitment.final_coeffs.coeffs[1], vec![0, 0]);
    let round = fri_prover_query_round(&vec![], &commitment.trees, &vec![2], 6, 3);
    assert!(round.initial_trees_proof.evals_proofs.is_empty());
    assert_eq!(round.steps.len(), 1);
    assert_eq!(round.steps[0].evals, commitment.trees[0].leaves[1]);
    assert!(verify_merkle_proof(
        &hasher,
        &round.steps[0].evals,
        1,
        &commitment.trees[0].cap,
        &round.steps[0].merkle_proof
    ));
    // without layers the polynomial itself is left
    let mut challenger = Challenger::new();
    let plain = PolynomialCoeffsExt { coeffs: vec![vec![1, 2], vec![3, 4]] };
    let commitment = fri_committed_trees(&ctx, &hasher, plain, &mut challenger, &vec![], 0);
    assert!(commitment.trees.is_empty());
    assert_eq!(commitment.final_coeffs.coeffs, vec![vec![1, 2], vec![3, 4]]);
}

#[test]
fn a_difficulty_that_no_witness_meets() {
    let ctx = small_field();
    let hasher = AlgebraicSponge::new(&ctx);
    let mut challenger = Challenger::new();
    challenger.observe_element(1);
    let before = challenger.duplicate();
    assert_eq!(fri_proof_of_work(&ctx, &hasher, &mut challenger, 65), None);
    assert_eq!(challenger.input_buffer, before.input_buffer);

    let (first, second) = oracles(&ctx, &hasher);
    let batches = vec![&first, &second];
    let mut challenger = Challenger::new();
    let result = PolynomialBatch::prove_openings(
        &ctx,
        &hasher,
        &instance(),
        &batches,
        &mut challenger,
        &params(65, 0),
    );
    assert_eq!(result.unwrap_err(), fri_oracle::fri::FriError::ProofOfWorkFailed);
}
