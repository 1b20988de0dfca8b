//! What an opening proof is about: the oracles, and the points at which
//! their polynomials are opened.

use crate::extension_polynomial::PolynomialCoeffsExt;
use crate::field::FieldContext;
use crate::merkle_tree::{MerkleCap, MerkleProof};
use crate::oracle::PolynomialBatch;
use vstd::prelude::*;

verus! {

/// The values of one leaf with the path that authenticates it.
#[derive(Debug)]
pub struct FriOpening {
    pub evals: Vec<u64>,
    pub merkle_proof: MerkleProof,
}

/// The openings of the committed oracles at one queried position.
#[derive(Debug)]
pub struct FriInitialTreeProof {
    pub evals_proofs: Vec<FriOpening>,
}

/// The opening of one folded layer at one queried position.
#[derive(Debug)]
pub struct FriQueryStep {
    pub evals: Vec<u64>,
    pub merkle_proof: MerkleProof,
}

/// What one query reveals: the oracles and every layer at the queried position.
#[derive(Debug)]
pub struct FriQueryRound {
    pub initial_trees_proof: FriInitialTreeProof,
    pub steps: Vec<FriQueryStep>,
}

/// An opening proof: the caps of the folded layers, what the queries
/// reveal, the polynomial that is left after the last folding, and the
/// witness of the proof of work.
#[derive(Debug)]
pub struct FriProof {
    pub commit_phase_merkle_caps: Vec<MerkleCap>,
    pub query_round_proofs: Vec<FriQueryRound>,
    pub final_poly: PolynomialCoeffsExt,
    pub pow_witness: u64,
}

/// Why no proof was produced.
#[derive(Clone, Copy, Debug, PartialEq, Eq, Structural)]
pub enum FriError {
    /// No 64-bit witness meets the difficulty of the proof of work.
    ProofOfWorkFailed,
}

/// The parameters that fix the shape of an opening proof.
#[derive(Clone, Copy, Debug, PartialEq, Eq, Structural)]
pub struct FriConfig {
    /// The logarithm of the blow-up of the committed evaluations.
    pub rate_bits: usize,
    /// The height of the Merkle caps.
    pub cap_height: usize,
    /// The number of leading zero bits asked of the proof of work.
    pub proof_of_work_bits: u32,
    /// The number of queries.
    pub num_query_rounds: usize,
}

/// The configuration together with what depends on the instance.
#[derive(Debug)]
pub struct FriParams {
    pub config: FriConfig,
    /// Whether the oracles are blinded.
    pub hiding: bool,
    /// The logarithm of the degree bound of the polynomials opened.
    pub degree_bits: usize,
    /// The logarithm of the arity of each folding step.
    pub reduction_arity_bits: Vec<usize>,
}

/// One polynomial of one oracle.
#[derive(Clone, Copy, Debug, PartialEq, Eq, Structural)]
pub struct FriPolynomialInfo {
    pub oracle_index: usize,
    pub polynomial_index: usize,
}

/// A point of the extension field and the polynomials opened there.
#[derive(Debug)]
pub struct FriBatchInfo {
    pub point: Vec<u64>,
    pub polynomials: Vec<FriPolynomialInfo>,
}

/// What is known of an oracle without its contents.
#[derive(Clone, Copy, Debug, PartialEq, Eq, Structural)]
pub struct FriOracleInfo {
    pub num_polys: usize,
    pub blinding: bool,
}

/// The oracles of an instance and the batches of openings asked of them.
#[derive(Debug)]
pub struct FriInstanceInfo {
    pub oracles: Vec<FriOracleInfo>,
    pub batches: Vec<FriBatchInfo>,
}

impl FriBatchInfo {
    /// Whether the batch opens at a point of the extension field and names
    /// only polynomials that the oracles hold.
    pub open spec fn valid_for(self, ctx: FieldContext, oracles: Seq<&PolynomialBatch>) -> bool {
        &&& ctx.is_ext(self.point@)
        &&& forall|j: int|
            0 <= j < self.polynomials.len() ==> {
                &&& (#[trigger] self.polynomials[j]).oracle_index < oracles.len()
                &&& self.polynomials[j].polynomial_index
                    < oracles[self.polynomials[j].oracle_index as int].polynomials.len()
            }
    }

    /// The coefficient sequences of the polynomials opened, in the batch's order.
    pub open spec fn opened(self, oracles: Seq<&PolynomialBatch>) -> Seq<Seq<u64>> {
        Seq::new(
            self.polynomials.len() as nat,
            |j: int|
                oracles[self.polynomials[j].oracle_index as int].polynomials[self.polynomials[j].polynomial_index as int].coeffs@,
        )
    }
}

impl FriInstanceInfo {
    /// Whether every batch is valid for the oracles.
    pub open spec fn valid_for(self, ctx: FieldContext, oracles: Seq<&PolynomialBatch>) -> bool {
        forall|m: int|
            0 <= m < self.batches.len() ==> (#[trigger] self.batches[m]).valid_for(ctx, oracles)
    }
}

} // verus!
