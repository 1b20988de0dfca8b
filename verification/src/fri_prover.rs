//! The prover of the low-degree test: the polynomial is folded layer by
//! layer under challenges drawn from the transcript, every layer is
//! committed to, and the layers are opened at the queried positions.

use crate::bits::{
    lemma_log2_pow2, lemma_pow2_is_pow2, lemma_pow2_log2, lemma_pow2_monotone, log2_strict,
    pow2_usize, spec_log2, spec_unreverse_bits,
};
use crate::challenger::{Challenger, ChallengerView};
use crate::extension::deep;
use crate::extension_polynomial::{coordinate, PolynomialCoeffsExt};
use crate::field::FieldContext;
use crate::fri::{
    FriError, FriInitialTreeProof, FriOpening, FriParams, FriProof, FriQueryRound, FriQueryStep,
};
use crate::hash::{HashOut, Hasher};
use crate::merkle_tree::{
    lemma_proof_verifies, sibling_index, spec_verify_merkle_proof, MerkleCap, MerkleProof,
    MerkleTree,
};
use crate::util::reverse_index_bits;
use crate::vars::flatten_ext;
use vstd::arithmetic::power2::{is_pow2, lemma_pow2_adds, lemma_pow2_pos, lemma_pow2_unfold, pow2};
use vstd::prelude::*;

verus! {

impl FieldContext {
    /// `terms[0] + terms[1] * beta + ... + terms[count - 1] * beta^(count - 1)`.
    pub open spec fn spec_reduce_with_powers(
        self,
        terms: Seq<Seq<u64>>,
        beta: Seq<u64>,
        count: nat,
    ) -> Seq<u64>
        decreases count,
    {
        if count == 0 {
            self.spec_ext_zero()
        } else {
            self.spec_ext_add(
                self.spec_reduce_with_powers(terms, beta, (count - 1) as nat),
                self.spec_ext_mul(terms[count - 1], self.spec_ext_pow(beta, (count - 1) as nat)),
            )
        }
    }

    /// The polynomial folded by `arity` under `beta`: coefficient `i` is
    /// the combination of the coefficients `i * arity` to
    /// `i * arity + arity - 1` by the powers of `beta`.
    pub open spec fn spec_fold(self, coeffs: Seq<Seq<u64>>, arity: nat, beta: Seq<u64>) -> Seq<
        Seq<u64>,
    > {
        Seq::new(
            coeffs.len() / arity,
            |i: int|
                self.spec_reduce_with_powers(
                    coeffs.subrange(i * arity, i * arity + arity),
                    beta,
                    arity,
                ),
        )
    }

    /// The values of a polynomial over the coset `shift * H` of the
    /// subgroup of its length, in bit-reversed order.
    pub open spec fn spec_coset_values_reversed(self, coeffs: Seq<Seq<u64>>, shift: u64) -> Seq<
        Seq<u64>,
    > {
        let bits = spec_log2(coeffs.len() as int);
        Seq::new(
            coeffs.len(),
            |p: int|
                Seq::new(
                    self.degree as nat,
                    |t: int|
                        self.spec_eval(
                            coordinate(coeffs, t),
                            self.coset_point(
                                shift,
                                self.spec_root_of_unity(bits),
                                spec_unreverse_bits(p as nat, bits),
                            ),
                        ),
                ),
        )
    }
}

/// The leaves of the tree over one layer: every `arity` adjoining values,
/// coordinate after coordinate.
pub open spec fn spec_layer_leaves(values: Seq<Seq<u64>>, arity: nat) -> Seq<Seq<u64>> {
    Seq::new(
        values.len() / arity,
        |i: int| flatten_ext(values.subrange(i * arity, i * arity + arity)),
    )
}

/// Folds a polynomial by `arity` under `beta`.
pub fn fold_polynomial(
    ctx: &FieldContext,
    coeffs: &PolynomialCoeffsExt,
    arity: usize,
    beta: &Vec<u64>,
) -> (r: PolynomialCoeffsExt)
    requires
        ctx.modulus > 1,
        ctx.is_elem(ctx.w),
        arity >= 1,
        coeffs.coeffs.len() % arity == 0,
        ctx.all_ext(deep(coeffs.coeffs@)),
        ctx.is_ext(beta@),
    ensures
        deep(r.coeffs@) == ctx.spec_fold(deep(coeffs.coeffs@), arity as nat, beta@),
        ctx.all_ext(deep(r.coeffs@)),
{
    let ghost all = deep(coeffs.coeffs@);
    let n = coeffs.coeffs.len();
    let count = n / arity;
    proof {
        vstd::arithmetic::div_mod::lemma_fundamental_div_mod(n as int, arity as int);
    }
    // powers[j] == beta^j
    let mut powers: Vec<Vec<u64>> = Vec::new();
    let mut current = ctx.ext_one();
    let mut j: usize = 0;
    while j < arity
        invariant
            j <= arity,
            ctx.modulus > 1,
            ctx.is_elem(ctx.w),
            ctx.is_ext(beta@),
            ctx.is_ext(current@),
            current@ == ctx.spec_ext_pow(beta@, j as nat),
            powers.len() == j,
            forall|t: int|
                0 <= t < j ==> (#[trigger] powers[t])@ == ctx.spec_ext_pow(beta@, t as nat)
                    && ctx.is_ext(powers[t]@),
        decreases arity - j,
    {
        powers.push(current.clone());
        current = ctx.ext_mul(&current, beta);
        j = j + 1;
    }
    let mut folded: Vec<Vec<u64>> = Vec::new();
    let mut i: usize = 0;
    while i < count
        invariant
            i <= count,
            arity >= 1,
            n == coeffs.coeffs.len(),
            n == arity * count,
            all == deep(coeffs.coeffs@),
            ctx.modulus > 1,
            ctx.is_elem(ctx.w),
            ctx.all_ext(all),
            powers.len() == arity,
            forall|t: int|
                0 <= t < arity ==> (#[trigger] powers[t])@ == ctx.spec_ext_pow(beta@, t as nat)
                    && ctx.is_ext(powers[t]@),
            folded.len() == i,
            forall|t: int|
                0 <= t < i ==> (#[trigger] folded[t])@ == ctx.spec_reduce_with_powers(
                    all.subrange(t * arity, t * arity + arity),
                    beta@,
                    arity as nat,
                ) && ctx.is_ext(folded[t]@),
        decreases count - i,
    {
        proof {
            assert(i * arity + arity <= arity * count) by (nonlinear_arith)
                requires
                    0 <= i < count,
                    arity >= 1,
            ;
        }
        let start = i * arity;
        let ghost chunk = all.subrange(start as int, start + arity);
        let mut acc = ctx.ext_zero();
        let mut j: usize = 0;
        while j < arity
            invariant
                j <= arity,
                start + arity <= n,
                n == coeffs.coeffs.len(),
                all == deep(coeffs.coeffs@),
                chunk == all.subrange(start as int, start + arity),
                ctx.modulus > 1,
                ctx.is_elem(ctx.w),
                ctx.all_ext(all),
                powers.len() == arity,
                forall|t: int|
                    0 <= t < arity ==> (#[trigger] powers[t])@ == ctx.spec_ext_pow(
                        beta@,
                        t as nat,
                    ) && ctx.is_ext(powers[t]@),
                ctx.is_ext(acc@),
                acc@ == ctx.spec_reduce_with_powers(chunk, beta@, j as nat),
            decreases arity - j,
        {
            assert(ctx.is_ext(all[start + j]));
            assert(chunk[j as int] == coeffs.coeffs[start + j]@);
            let term = ctx.ext_mul(&coeffs.coeffs[start + j], &powers[j]);
            acc = ctx.ext_add(&acc, &term);
            j = j + 1;
        }
        folded.push(acc);
        i = i + 1;
    }
    let r = PolynomialCoeffsExt { coeffs: folded };
    proof {
        assert(deep(r.coeffs@) =~= ctx.spec_fold(all, arity as nat, beta@));
    }
    r
}

/// The leaves of the tree over one layer of values.
pub fn layer_leaves(values: &Vec<Vec<u64>>, arity: usize) -> (leaves: Vec<Vec<u64>>)
    requires
        arity >= 1,
        values.len() % arity == 0,
    ensures
        deep(leaves@) == spec_layer_leaves(deep(values@), arity as nat),
{
    let ghost all = deep(values@);
    let n = values.len();
    let count = n / arity;
    proof {
        vstd::arithmetic::div_mod::lemma_fundamental_div_mod(n as int, arity as int);
    }
    let mut leaves: Vec<Vec<u64>> = Vec::new();
    let mut i: usize = 0;
    while i < count
        invariant
            i <= count,
            arity >= 1,
            n == values.len(),
            n == arity * count,
            all == deep(values@),
            leaves.len() == i,
            forall|t: int|
                0 <= t < i ==> (#[trigger] leaves[t])@ == flatten_ext(
                    all.subrange(t * arity, t * arity + arity),
                ),
        decreases count - i,
    {
        proof {
            assert(i * arity + arity <= arity * count) by (nonlinear_arith)
                requires
                    0 <= i < count,
                    arity >= 1,
            ;
        }
        let start = i * arity;
        let ghost chunk = all.subrange(start as int, start + arity);
        let mut leaf: Vec<u64> = Vec::new();
        let mut j: usize = 0;
        proof {
            assert(chunk.take(0).len() == 0);
        }
        while j < arity
            invariant
                j <= arity,
                start + arity <= n,
                n == values.len(),
                all == deep(values@),
                chunk == all.subrange(start as int, start + arity),
                leaf@ == flatten_ext(chunk.take(j as int)),
            decreases arity - j,
        {
            let ghost before = leaf@;
            let value = &values[start + j];
            let mut t: usize = 0;
            while t < value.len()
                invariant
                    t <= value.len(),
                    leaf@ == before + value@.take(t as int),
                decreases value.len() - t,
            {
                leaf.push(value[t]);
                proof {
                    assert(leaf@ =~= before + value@.take(t + 1));
                }
                t = t + 1;
            }
            proof {
                assert(value@.take(t as int) == value@);
                assert(chunk.take(j + 1).drop_last() =~= chunk.take(j as int));
                assert(chunk.take(j + 1).last() == value@);
            }
            j = j + 1;
        }
        proof {
            assert(chunk.take(arity as int) =~= chunk);
        }
        leaves.push(leaf);
        i = i + 1;
    }
    proof {
        assert(deep(leaves@) =~= spec_layer_leaves(all, arity as nat));
    }
    leaves
}

/// The values of a polynomial over the coset `shift * H`, in bit-reversed order.
pub fn coset_values_reversed(ctx: &FieldContext, coeffs: &PolynomialCoeffsExt, shift: u64) -> (r:
    Vec<Vec<u64>>)
    requires
        ctx.wf(),
        is_pow2(coeffs.coeffs.len() as int),
        spec_log2(coeffs.coeffs.len() as int) <= ctx.two_adicity,
        ctx.all_ext(deep(coeffs.coeffs@)),
        ctx.is_elem(shift),
    ensures
        deep(r@) == ctx.spec_coset_values_reversed(deep(coeffs.coeffs@), shift),
        r.len() == coeffs.coeffs.len(),
{
    let values = coeffs.coset_fft(ctx, shift);
    let r = reverse_index_bits(&values.values);
    proof {
        let bits = spec_log2(coeffs.coeffs.len() as int);
        let expected = ctx.spec_coset_values_reversed(deep(coeffs.coeffs@), shift);
        lemma_pow2_log2(coeffs.coeffs.len() as int);
        assert forall|p: int| 0 <= p < r.len() implies deep(r@)[p] == expected[p] by {
            let pn = p as nat;
            crate::bits::lemma_unreverse_bits_bound(pn, bits);
            let source = spec_unreverse_bits(pn, bits) as int;
            assert(r[pn as int]@ == values.values[source]@);
            assert(ctx.is_ext(deep(values.values@)[source]));
            assert forall|t: int| 0 <= t < ctx.degree implies values.values[source][t]
                == expected[p][t] by {
                assert(values.values[source][t] == ctx.spec_eval(
                    coordinate(deep(coeffs.coeffs@), t),
                    ctx.coset_point(shift, ctx.spec_root_of_unity(bits), source as nat),
                ));
            }
            assert(r[p]@ =~= expected[p]);
        }
        assert(deep(r@) =~= expected);
    }
    r
}

/// The number of halvings that the first `k` layers make together.
pub open spec fn spec_total_bits(arity_bits: Seq<usize>, k: nat) -> nat
    decreases k,
{
    if k == 0 {
        0
    } else {
        spec_total_bits(arity_bits, (k - 1) as nat) + arity_bits[k - 1] as nat
    }
}

/// The caps of the trees, in order.
pub open spec fn caps_of(trees: Seq<MerkleTree>) -> Seq<Seq<HashOut>> {
    Seq::new(trees.len(), |k: int| trees[k].cap.0@)
}

impl FieldContext {
    /// The polynomial that layer `k` commits to: the polynomial of the
    /// layer before, folded under that layer's challenge.
    pub open spec fn spec_layer_coeffs(
        self,
        coeffs: Seq<Seq<u64>>,
        arity_bits: Seq<usize>,
        betas: Seq<Seq<u64>>,
        k: nat,
    ) -> Seq<Seq<u64>>
        decreases k,
    {
        if k == 0 {
            coeffs
        } else {
            self.spec_fold(
                self.spec_layer_coeffs(coeffs, arity_bits, betas, (k - 1) as nat),
                pow2(arity_bits[k - 1] as nat),
                betas[k - 1],
            )
        }
    }

    /// The shift of the coset that layer `k` is evaluated over: the shift of
    /// the layer before, raised to that layer's arity.
    pub open spec fn spec_layer_shift(self, arity_bits: Seq<usize>, k: nat) -> u64
        decreases k,
    {
        if k == 0 {
            self.coset_shift
        } else {
            self.spec_pow(
                self.spec_layer_shift(arity_bits, (k - 1) as nat),
                pow2(arity_bits[k - 1] as nat),
            )
        }
    }
}

/// The transcript before layer `k` is committed to: after every earlier
/// layer, its cap was observed and its challenge was drawn.
pub open spec fn spec_layer_view<H: Hasher>(
    hasher: &H,
    ctx: FieldContext,
    start: ChallengerView,
    caps: Seq<Seq<HashOut>>,
    k: nat,
) -> ChallengerView
    decreases k,
{
    if k == 0 {
        start
    } else {
        spec_layer_view(hasher, ctx, start, caps, (k - 1) as nat).observe_digests(
            caps[k - 1],
        ).after_challenges(hasher, ctx.degree as nat)
    }
}

/// The transcript before a layer depends on the caps of the earlier layers only.
pub proof fn lemma_layer_view_prefix<H: Hasher>(
    hasher: &H,
    ctx: FieldContext,
    start: ChallengerView,
    caps: Seq<Seq<HashOut>>,
    more: Seq<Seq<HashOut>>,
    k: nat,
)
    requires
        k <= caps.len() <= more.len(),
        forall|j: int| 0 <= j < caps.len() ==> caps[j] == more[j],
    ensures
        spec_layer_view(hasher, ctx, start, more, k) == spec_layer_view(hasher, ctx, start, caps, k),
    decreases k,
{
    if k > 0 {
        lemma_layer_view_prefix(hasher, ctx, start, caps, more, (k - 1) as nat);
    }
}

/// The polynomial of a layer depends on the challenges of the earlier layers only.
pub proof fn lemma_layer_coeffs_prefix(
    ctx: FieldContext,
    coeffs: Seq<Seq<u64>>,
    arity_bits: Seq<usize>,
    betas: Seq<Seq<u64>>,
    more: Seq<Seq<u64>>,
    k: nat,
)
    requires
        k <= betas.len() <= more.len(),
        forall|j: int| 0 <= j < betas.len() ==> betas[j] == more[j],
    ensures
        ctx.spec_layer_coeffs(coeffs, arity_bits, more, k) == ctx.spec_layer_coeffs(
            coeffs,
            arity_bits,
            betas,
            k,
        ),
    decreases k,
{
    if k > 0 {
        lemma_layer_coeffs_prefix(ctx, coeffs, arity_bits, betas, more, (k - 1) as nat);
    }
}

/// The halvings of more layers are no fewer.
pub proof fn lemma_total_bits_monotone(arity_bits: Seq<usize>, a: nat, b: nat)
    requires
        a <= b,
    ensures
        spec_total_bits(arity_bits, a) <= spec_total_bits(arity_bits, b),
    decreases b - a,
{
    if a < b {
        lemma_total_bits_monotone(arity_bits, a, (b - 1) as nat);
    }
}

/// What the commit phase leaves behind: the tree of every layer, the
/// challenge that folded it, and the polynomial that is left.
#[derive(Debug)]
pub struct FriCommitment {
    pub trees: Vec<MerkleTree>,
    pub betas: Vec<Vec<u64>>,
    pub final_coeffs: PolynomialCoeffsExt,
}

/// Whether the commitment is that of `coeffs` under the transcript that
/// started as `start`, layer by layer.
///
/// Layer `k` commits to the values of its polynomial over its coset, in
/// bit-reversed order, every `2^arity_bits[k]` adjoining values in one
/// leaf. Its challenge is drawn after its cap is observed. The polynomial
/// of the next layer is this one folded under the challenge, and its coset
/// is this one raised to the arity.
pub open spec fn is_commitment_of<H: Hasher>(
    commitment: FriCommitment,
    hasher: &H,
    ctx: FieldContext,
    coeffs: Seq<Seq<u64>>,
    arity_bits: Seq<usize>,
    cap_height: usize,
    start: ChallengerView,
) -> bool {
    let layers = arity_bits.len();
    let betas = deep(commitment.betas@);
    let caps = caps_of(commitment.trees@);
    &&& commitment.trees.len() == layers
    &&& commitment.betas.len() == layers
    &&& forall|k: int|
        0 <= k < layers ==> {
            &&& (#[trigger] commitment.trees[k]).wf(hasher)
            &&& commitment.trees[k].cap_height() == cap_height
            &&& deep(commitment.trees[k].leaves@) == spec_layer_leaves(
                ctx.spec_coset_values_reversed(
                    ctx.spec_layer_coeffs(coeffs, arity_bits, betas, k as nat),
                    ctx.spec_layer_shift(arity_bits, k as nat),
                ),
                pow2(arity_bits[k] as nat),
            )
        }
    &&& forall|k: int|
        0 <= k < layers ==> #[trigger] betas[k] == spec_layer_view(
            hasher,
            ctx,
            start,
            caps,
            k as nat,
        ).observe_digests(caps[k]).challenges(hasher, ctx, ctx.degree as nat)
    &&& deep(commitment.final_coeffs.coeffs@) == ctx.spec_layer_coeffs(
        coeffs,
        arity_bits,
        betas,
        layers,
    )
}

/// Commits to the layers of the low-degree test of `coeffs`.
#[verifier::rlimit(40)]
pub fn fri_committed_trees<H: Hasher>(
    ctx: &FieldContext,
    hasher: &H,
    coeffs: PolynomialCoeffsExt,
    challenger: &mut Challenger,
    arity_bits: &Vec<usize>,
    cap_height: usize,
) -> (commitment: FriCommitment)
    requires
        ctx.wf(),
        is_pow2(coeffs.coeffs.len() as int),
        spec_log2(coeffs.coeffs.len() as int) <= ctx.two_adicity,
        ctx.all_ext(deep(coeffs.coeffs@)),
        spec_total_bits(arity_bits@, arity_bits.len() as nat) + cap_height <= spec_log2(
            coeffs.coeffs.len() as int,
        ),
    ensures
        is_commitment_of(
            commitment,
            hasher,
            *ctx,
            deep(coeffs.coeffs@),
            arity_bits@,
            cap_height,
            old(challenger).view(),
        ),
        final(challenger).view() == spec_layer_view(
            hasher,
            *ctx,
            old(challenger).view(),
            caps_of(commitment.trees@),
            arity_bits.len() as nat,
        ),
        commitment.final_coeffs.coeffs.len() == pow2(
            (spec_log2(coeffs.coeffs.len() as int) - spec_total_bits(
                arity_bits@,
                arity_bits.len() as nat,
            )) as nat,
        ),
        ctx.all_ext(deep(commitment.final_coeffs.coeffs@)),
        forall|k: int|
            0 <= k < arity_bits.len() ==> (#[trigger] commitment.trees[k]).leaves.len() == pow2(
                (spec_log2(coeffs.coeffs.len() as int) - spec_total_bits(
                    arity_bits@,
                    (k + 1) as nat,
                )) as nat,
            ),
{
    let ghost initial = deep(coeffs.coeffs@);
    let ghost start = challenger.view();
    let ghost n_log = spec_log2(coeffs.coeffs.len() as int);
    let layers = arity_bits.len();
    let mut trees: Vec<MerkleTree> = Vec::new();
    let mut betas: Vec<Vec<u64>> = Vec::new();
    let mut coeffs = coeffs;
    let mut shift = ctx.coset_shift;
    let mut k: usize = 0;
    proof {
        lemma_pow2_log2(coeffs.coeffs.len() as int);
    }
    while k < layers
        invariant
            k <= layers,
            layers == arity_bits.len(),
            ctx.wf(),
            n_log <= ctx.two_adicity,
            spec_total_bits(arity_bits@, layers as nat) + cap_height <= n_log,
            spec_total_bits(arity_bits@, k as nat) <= n_log,
            coeffs.coeffs.len() == pow2((n_log - spec_total_bits(arity_bits@, k as nat)) as nat),
            ctx.all_ext(deep(coeffs.coeffs@)),
            ctx.is_elem(shift),
            shift == ctx.spec_layer_shift(arity_bits@, k as nat),
            trees.len() == k,
            betas.len() == k,
            deep(coeffs.coeffs@) == ctx.spec_layer_coeffs(
                initial,
                arity_bits@,
                deep(betas@),
                k as nat,
            ),
            challenger.view() == spec_layer_view(hasher, *ctx, start, caps_of(trees@), k as nat),
            forall|j: int|
                0 <= j < k ==> {
                    &&& (#[trigger] trees[j]).wf(hasher)
                    &&& trees[j].cap_height() == cap_height
                    &&& trees[j].leaves.len() == pow2(
                        (n_log - spec_total_bits(arity_bits@, (j + 1) as nat)) as nat,
                    )
                    &&& deep(trees[j].leaves@) == spec_layer_leaves(
                        ctx.spec_coset_values_reversed(
                            ctx.spec_layer_coeffs(initial, arity_bits@, deep(betas@), j as nat),
                            ctx.spec_layer_shift(arity_bits@, j as nat),
                        ),
                        pow2(arity_bits[j] as nat),
                    )
                },
            forall|j: int|
                0 <= j < k ==> #[trigger] deep(betas@)[j] == spec_layer_view(
                    hasher,
                    *ctx,
                    start,
                    caps_of(trees@),
                    j as nat,
                ).observe_digests(caps_of(trees@)[j]).challenges(hasher, *ctx, ctx.degree as nat),
        decreases layers - k,
    {
        let bits = arity_bits[k];
        let ghost here_log = (n_log - spec_total_bits(arity_bits@, k as nat)) as nat;
        let ghost next_log = (n_log - spec_total_bits(arity_bits@, (k + 1) as nat)) as nat;
        let ghost old_trees = trees@;
        let ghost old_betas = deep(betas@);
        let ghost old_beta_vecs = betas@;
        proof {
            lemma_total_bits_monotone(arity_bits@, (k + 1) as nat, layers as nat);
            assert(here_log == next_log + bits);
            lemma_pow2_adds(next_log, bits as nat);
            lemma_pow2_monotone(bits as nat, here_log);
            lemma_pow2_pos(bits as nat);
            lemma_pow2_pos(next_log);
            lemma_pow2_is_pow2(here_log);
            lemma_pow2_is_pow2(next_log);
            lemma_log2_pow2(here_log);
            lemma_log2_pow2(next_log);
            vstd::arithmetic::div_mod::lemma_fundamental_div_mod_converse(
                pow2(here_log) as int,
                pow2(bits as nat) as int,
                pow2(next_log) as int,
                0,
            );
            assert(pow2(next_log) * pow2(bits as nat) == pow2(bits as nat) * pow2(next_log))
                by (nonlinear_arith);
        }
        let arity = pow2_usize(bits);
        let values = coset_values_reversed(ctx, &coeffs, shift);
        let leaves = layer_leaves(&values, arity);
        proof {
            assert(deep(leaves@).len() == leaves.len());
        }
        let tree = MerkleTree::new(hasher, leaves, cap_height);
        challenger.observe_cap(&tree.cap);
        let beta = challenger.get_extension_challenge(hasher, ctx);
        let folded = fold_polynomial(ctx, &coeffs, arity, &beta);
        let next_shift = ctx.exp_u64(shift, arity as u64);
        proof {
            assert(deep(folded.coeffs@).len() == folded.coeffs.len());
        }
        trees.push(tree);
        betas.push(beta);
        coeffs = folded;
        shift = next_shift;
        proof {
            let new_betas = deep(betas@);
            let new_caps = caps_of(trees@);
            let old_caps = caps_of(old_trees);
            assert forall|j: int| 0 <= j < old_betas.len() implies old_betas[j] == new_betas[j] by {
                assert(betas[j] == old_beta_vecs[j]);
            }
            assert forall|j: int| 0 <= j < old_caps.len() implies old_caps[j] == new_caps[j] by {
                assert(trees[j] == old_trees[j]);
            }
            assert forall|j: int| 0 <= j < k + 1 implies {
                &&& (#[trigger] trees[j]).wf(hasher)
                &&& trees[j].cap_height() == cap_height
                &&& trees[j].leaves.len() == pow2(
                    (n_log - spec_total_bits(arity_bits@, (j + 1) as nat)) as nat,
                )
                &&& deep(trees[j].leaves@) == spec_layer_leaves(
                    ctx.spec_coset_values_reversed(
                        ctx.spec_layer_coeffs(initial, arity_bits@, new_betas, j as nat),
                        ctx.spec_layer_shift(arity_bits@, j as nat),
                    ),
                    pow2(arity_bits[j] as nat),
                )
            } by {
                lemma_layer_coeffs_prefix(
                    *ctx,
                    initial,
                    arity_bits@,
                    old_betas,
                    new_betas,
                    j as nat,
                );
                if j < k {
                    assert(trees[j] == old_trees[j]);
                }
            }
            assert forall|j: int| 0 <= j < k + 1 implies #[trigger] new_betas[j]
                == spec_layer_view(hasher, *ctx, start, new_caps, j as nat).observe_digests(
                new_caps[j],
            ).challenges(hasher, *ctx, ctx.degree as nat) by {
                lemma_layer_view_prefix(hasher, *ctx, start, old_caps, new_caps, j as nat);
                if j < k {
                    assert(old_betas[j] == new_betas[j]);
                    assert(old_caps[j] == new_caps[j]);
                }
            }
            lemma_layer_view_prefix(hasher, *ctx, start, old_caps, new_caps, k as nat);
            lemma_layer_coeffs_prefix(*ctx, initial, arity_bits@, old_betas, new_betas, k as nat);
        }
        k = k + 1;
    }
    FriCommitment { trees, betas, final_coeffs: coeffs }
}

/// Whether `response` meets the difficulty: its 64-bit form starts with at
/// least `bits` zeros.
pub open spec fn pow_accepts(response: u64, bits: u32) -> bool {
    bits == 0 || (bits <= 64 && response < pow2((64 - bits) as nat))
}

/// The response of the transcript to a candidate witness of the proof of work.
pub open spec fn spec_pow_response<H: Hasher>(
    hasher: &H,
    ctx: FieldContext,
    view: ChallengerView,
    witness: u64,
) -> u64 {
    view.observe(witness).challenge(hasher, ctx)
}

impl Challenger {
    /// A transcript in the same state.
    pub fn duplicate(&self) -> (r: Challenger)
        ensures
            r.view() == self.view(),
    {
        let r = Challenger {
            state: self.state,
            input_buffer: self.input_buffer.clone(),
            output_buffer: self.output_buffer.clone(),
        };
        r
    }
}

/// Whether `response` meets the difficulty.
pub fn check_pow_response(response: u64, bits: u32) -> (ok: bool)
    ensures
        ok == pow_accepts(response, bits),
{
    if bits == 0 {
        return true;
    }
    if bits > 64 {
        return false;
    }
    let mut threshold: u64 = 1;
    let mut k: u32 = 0;
    proof {
        vstd::arithmetic::power2::lemma2_to64();
    }
    while k < 64 - bits
        invariant
            k <= 64 - bits,
            1 <= bits <= 64,
            threshold == pow2(k as nat),
        decreases 64 - bits - k,
    {
        proof {
            lemma_pow2_unfold((k + 1) as nat);
            lemma_pow2_monotone((k + 1) as nat, 63);
            vstd::arithmetic::power2::lemma2_to64_rest();
        }
        threshold = threshold * 2;
        k = k + 1;
    }
    response < threshold
}

/// Searches for the least witness of the proof of work, and absorbs it
/// into the transcript together with the response drawn.
pub fn fri_proof_of_work<H: Hasher>(
    ctx: &FieldContext,
    hasher: &H,
    challenger: &mut Challenger,
    bits: u32,
) -> (r: Option<u64>)
    requires
        ctx.modulus > 0,
    ensures
        match r {
            Some(witness) => {
                &&& pow_accepts(
                    spec_pow_response(hasher, *ctx, old(challenger).view(), witness),
                    bits,
                )
                &&& forall|w: u64|
                    w < witness ==> !pow_accepts(
                        #[trigger] spec_pow_response(hasher, *ctx, old(challenger).view(), w),
                        bits,
                    )
                &&& final(challenger).view() == old(challenger).view().observe(
                    witness,
                ).after_challenge(hasher)
            },
            None => {
                &&& forall|w: u64|
                    !pow_accepts(
                        #[trigger] spec_pow_response(hasher, *ctx, old(challenger).view(), w),
                        bits,
                    )
                &&& final(challenger).view() == old(challenger).view()
            },
        },
        bits == 0 ==> r == Some(0u64),
{
    if bits > 64 {
        // no word has more than 64 leading zeros
        return None;
    }
    let mut witness: u64 = 0;
    loop
        invariant
            ctx.modulus > 0,
            bits == 0 ==> witness == 0,
            challenger.view() == old(challenger).view(),
            forall|w: u64|
                w < witness ==> !pow_accepts(
                    #[trigger] spec_pow_response(hasher, *ctx, old(challenger).view(), w),
                    bits,
                ),
        decreases u64::MAX - witness,
    {
        let mut attempt = challenger.duplicate();
        attempt.observe_element(witness);
        let response = attempt.get_challenge(hasher, ctx);
        if check_pow_response(response, bits) {
            challenger.observe_element(witness);
            let _ = challenger.get_challenge(hasher, ctx);
            return Some(witness);
        }
        if witness == u64::MAX {
            return None;
        }
        witness = witness + 1;
    }
}

/// Whether `evals` and `proof` are what `tree` reveals of its leaf at `index`.
pub open spec fn is_opening_of(
    tree: MerkleTree,
    index: int,
    evals: Seq<u64>,
    proof: MerkleProof,
) -> bool {
    &&& 0 <= index < tree.leaves.len()
    &&& evals == tree.leaves[index]@
    &&& proof.siblings.len() == tree.digests.len() - 1
    &&& forall|k: int|
        0 <= k < proof.siblings.len() ==> #[trigger] proof.siblings[k]
            == tree.digests[k][sibling_index(index / (pow2(k as nat) as int))]
}

/// What a tree reveals of one of its leaves verifies against its cap.
pub proof fn lemma_opening_verifies<H: Hasher>(
    hasher: &H,
    tree: MerkleTree,
    index: int,
    evals: Seq<u64>,
    proof: MerkleProof,
)
    requires
        tree.wf(hasher),
        is_opening_of(tree, index, evals, proof),
    ensures
        spec_verify_merkle_proof(hasher, evals, index, tree.cap.0@, proof.siblings@),
{
    lemma_proof_verifies(hasher, tree, index, proof.siblings@);
}

/// Opens a tree at one leaf.
fn open_tree(tree: &MerkleTree, index: usize) -> (r: (Vec<u64>, MerkleProof))
    requires
        tree.shaped(),
        index < tree.leaves.len(),
    ensures
        is_opening_of(*tree, index as int, r.0@, r.1),
{
    let evals = tree.leaves[index].clone();
    let proof = tree.prove(index);
    (evals, proof)
}

/// Whether the round is what the oracles and the layers reveal at the
/// queried position `x_index`: every oracle at `x_index`, and layer `k` at
/// `x_index` shifted down by the halvings up to and with layer `k`.
pub open spec fn is_query_round_of(
    round: FriQueryRound,
    initial_trees: Seq<&MerkleTree>,
    trees: Seq<MerkleTree>,
    arity_bits: Seq<usize>,
    x_index: int,
) -> bool {
    &&& round.initial_trees_proof.evals_proofs.len() == initial_trees.len()
    &&& forall|o: int|
        0 <= o < initial_trees.len() ==> is_opening_of(
            *initial_trees[o],
            x_index,
            (#[trigger] round.initial_trees_proof.evals_proofs[o]).evals@,
            round.initial_trees_proof.evals_proofs[o].merkle_proof,
        )
    &&& round.steps.len() == trees.len()
    &&& forall|k: int|
        0 <= k < trees.len() ==> is_opening_of(
            trees[k],
            x_index / (pow2(spec_total_bits(arity_bits, (k + 1) as nat)) as int),
            (#[trigger] round.steps[k]).evals@,
            round.steps[k].merkle_proof,
        )
}

/// Opens the oracles and the layers at one queried position.
#[verifier::rlimit(40)]
pub fn fri_prover_query_round(
    initial_merkle_trees: &Vec<&MerkleTree>,
    trees: &Vec<MerkleTree>,
    arity_bits: &Vec<usize>,
    x_index: usize,
    n_log: usize,
) -> (round: FriQueryRound)
    requires
        trees.len() == arity_bits.len(),
        pow2(n_log as nat) <= usize::MAX,
        x_index < pow2(n_log as nat),
        spec_total_bits(arity_bits@, arity_bits.len() as nat) <= n_log,
        forall|o: int|
            0 <= o < initial_merkle_trees.len() ==> (#[trigger] initial_merkle_trees[o]).shaped()
                && initial_merkle_trees[o].leaves.len() == pow2(n_log as nat),
        forall|k: int|
            0 <= k < trees.len() ==> (#[trigger] trees[k]).shaped() && trees[k].leaves.len()
                == pow2((n_log - spec_total_bits(arity_bits@, (k + 1) as nat)) as nat),
    ensures
        is_query_round_of(round, initial_merkle_trees@, trees@, arity_bits@, x_index as int),
{
    let mut evals_proofs: Vec<FriOpening> = Vec::new();
    let mut o: usize = 0;
    while o < initial_merkle_trees.len()
        invariant
            o <= initial_merkle_trees.len(),
            x_index < pow2(n_log as nat),
            forall|t: int|
                0 <= t < initial_merkle_trees.len() ==> (
                #[trigger] initial_merkle_trees[t]).shaped()
                    && initial_merkle_trees[t].leaves.len() == pow2(n_log as nat),
            evals_proofs.len() == o,
            forall|t: int|
                0 <= t < o ==> is_opening_of(
                    *initial_merkle_trees[t],
                    x_index as int,
                    (#[trigger] evals_proofs[t]).evals@,
                    evals_proofs[t].merkle_proof,
                ),
        decreases initial_merkle_trees.len() - o,
    {
        let tree = initial_merkle_trees[o];
        assert(tree.shaped() && tree.leaves.len() == pow2(n_log as nat));
        let (evals, merkle_proof) = open_tree(tree, x_index);
        evals_proofs.push(FriOpening { evals, merkle_proof });
        o = o + 1;
    }
    let mut steps: Vec<FriQueryStep> = Vec::new();
    let mut position: usize = x_index;
    let mut k: usize = 0;
    proof {
        vstd::arithmetic::power2::lemma2_to64();
    }
    while k < trees.len()
        invariant
            k <= trees.len(),
            trees.len() == arity_bits.len(),
            pow2(n_log as nat) <= usize::MAX,
            spec_total_bits(arity_bits@, arity_bits.len() as nat) <= n_log,
            spec_total_bits(arity_bits@, k as nat) <= n_log,
            position == x_index as int / (pow2(spec_total_bits(arity_bits@, k as nat)) as int),
            position < pow2((n_log - spec_total_bits(arity_bits@, k as nat)) as nat),
            forall|t: int|
                0 <= t < trees.len() ==> (#[trigger] trees[t]).shaped() && trees[t].leaves.len()
                    == pow2((n_log - spec_total_bits(arity_bits@, (t + 1) as nat)) as nat),
            steps.len() == k,
            forall|t: int|
                0 <= t < k ==> is_opening_of(
                    trees[t],
                    x_index as int / (pow2(spec_total_bits(arity_bits@, (t + 1) as nat)) as int),
                    (#[trigger] steps[t]).evals@,
                    steps[t].merkle_proof,
                ),
        decreases trees.len() - k,
    {
        let bits = arity_bits[k];
        let ghost done = spec_total_bits(arity_bits@, k as nat);
        let ghost here_log = (n_log - done) as nat;
        let ghost next_log = (n_log - spec_total_bits(arity_bits@, (k + 1) as nat)) as nat;
        proof {
            lemma_total_bits_monotone(arity_bits@, (k + 1) as nat, arity_bits.len() as nat);
            assert(here_log == next_log + bits);
            lemma_pow2_adds(next_log, bits as nat);
            lemma_pow2_adds(done, bits as nat);
            lemma_pow2_monotone(bits as nat, n_log as nat);
            lemma_pow2_monotone(here_log, n_log as nat);
            lemma_pow2_pos(bits as nat);
            lemma_pow2_pos(done);
            lemma_pow2_pos(next_log);
            vstd::arithmetic::div_mod::lemma_div_denominator(
                x_index as int,
                pow2(done) as int,
                pow2(bits as nat) as int,
            );
            let a = pow2(bits as nat) as int;
            let b = pow2(next_log) as int;
            let p = position as int;
            vstd::arithmetic::div_mod::lemma_fundamental_div_mod(p, a);
            assert(p / a < b) by (nonlinear_arith)
                requires
                    p < b * a,
                    a > 0,
                    p == a * (p / a) + p % a,
                    0 <= p % a,
            ;
        }
        let arity = pow2_usize(bits);
        position = position / arity;
        let tree = &trees[k];
        assert(tree.shaped() && tree.leaves.len() == pow2(next_log));
        let (evals, merkle_proof) = open_tree(tree, position);
        steps.push(FriQueryStep { evals, merkle_proof });
        k = k + 1;
    }
    FriQueryRound { initial_trees_proof: FriInitialTreeProof { evals_proofs }, steps }
}

impl FriParams {
    /// Whether the parameters fit a polynomial of `2^n_log` coefficients:
    /// the layers together halve it no more often than leaves room for the
    /// cap, and for dropping the coefficients that the rate made zero.
    pub open spec fn fits(self, n_log: nat) -> bool {
        let total = spec_total_bits(self.reduction_arity_bits@, self.reduction_arity_bits.len() as nat);
        &&& total + self.config.cap_height <= n_log
        &&& total + self.config.rate_bits <= n_log
    }
}

/// The transcript when the proof of work starts: after the layers, the
/// polynomial that is left was observed.
pub open spec fn spec_pow_view<H: Hasher>(
    hasher: &H,
    ctx: FieldContext,
    start: ChallengerView,
    commitment: FriCommitment,
    final_poly: Seq<Seq<u64>>,
) -> ChallengerView {
    spec_layer_view(
        hasher,
        ctx,
        start,
        caps_of(commitment.trees@),
        commitment.trees.len() as nat,
    ).observe_extension_elements(final_poly)
}

/// The position that query `q` of a proof opens: the `q`-th challenge
/// drawn after the proof of work, taken modulo the number of leaves.
pub open spec fn spec_query_index<H: Hasher>(
    proof: FriProof,
    commitment: FriCommitment,
    hasher: &H,
    ctx: FieldContext,
    leaves: nat,
    params: FriParams,
    start: ChallengerView,
    q: int,
) -> int {
    let final_poly = deep(proof.final_poly.coeffs@);
    let pow_view = spec_pow_view(hasher, ctx, start, commitment, final_poly);
    let query_view = pow_view.observe(proof.pow_witness).after_challenge(hasher);
    let indices = query_view.challenges(hasher, ctx, params.config.num_query_rounds as nat);
    (indices[q] % (leaves as u64)) as int
}

/// Whether `proof` is the opening proof of `coeffs` that goes with the
/// commitment, under the transcript that started as `start`.
///
/// Its caps are those of the layers. Its final polynomial is what the last
/// folding left, without the top coefficients that the rate made zero. Its
/// witness is the least that meets the difficulty. Its `q`-th round opens
/// the oracles and the layers at the `q`-th challenge drawn after the
/// proof of work, taken modulo the number of leaves.
pub open spec fn is_fri_proof_of<H: Hasher>(
    proof: FriProof,
    commitment: FriCommitment,
    hasher: &H,
    ctx: FieldContext,
    initial_trees: Seq<&MerkleTree>,
    coeffs: Seq<Seq<u64>>,
    params: FriParams,
    start: ChallengerView,
) -> bool {
    let arity_bits = params.reduction_arity_bits@;
    let left = deep(commitment.final_coeffs.coeffs@);
    let final_poly = deep(proof.final_poly.coeffs@);
    let pow_view = spec_pow_view(hasher, ctx, start, commitment, final_poly);
    &&& is_commitment_of(
        commitment,
        hasher,
        ctx,
        coeffs,
        arity_bits,
        params.config.cap_height,
        start,
    )
    &&& proof.commit_phase_merkle_caps.len() == arity_bits.len()
    &&& forall|k: int|
        0 <= k < arity_bits.len() ==> (#[trigger] proof.commit_phase_merkle_caps[k]).0@
            == commitment.trees[k].cap.0@
    &&& final_poly == left.take((left.len() / pow2(params.config.rate_bits as nat)) as int)
    &&& pow_accepts(
        spec_pow_response(hasher, ctx, pow_view, proof.pow_witness),
        params.config.proof_of_work_bits,
    )
    &&& forall|w: u64|
        w < proof.pow_witness ==> !pow_accepts(
            #[trigger] spec_pow_response(hasher, ctx, pow_view, w),
            params.config.proof_of_work_bits,
        )
    &&& proof.query_round_proofs.len() == params.config.num_query_rounds
    &&& forall|q: int|
        0 <= q < params.config.num_query_rounds ==> is_query_round_of(
            #[trigger] proof.query_round_proofs[q],
            initial_trees,
            commitment.trees@,
            arity_bits,
            spec_query_index(proof, commitment, hasher, ctx, coeffs.len(), params, start, q),
        )
}

/// The transcript after the proof: after the proof of work, one challenge
/// was drawn for every query.
pub open spec fn spec_final_view<H: Hasher>(
    proof: FriProof,
    commitment: FriCommitment,
    hasher: &H,
    ctx: FieldContext,
    params: FriParams,
    start: ChallengerView,
) -> ChallengerView {
    spec_pow_view(hasher, ctx, start, commitment, deep(proof.final_poly.coeffs@)).observe(
        proof.pow_witness,
    ).after_challenge(hasher).after_challenges(hasher, params.config.num_query_rounds as nat)
}

/// Whether no proof exists because no witness meets the difficulty.
pub open spec fn pow_fails_for<H: Hasher>(
    commitment: FriCommitment,
    hasher: &H,
    ctx: FieldContext,
    coeffs: Seq<Seq<u64>>,
    params: FriParams,
    start: ChallengerView,
) -> bool {
    let left = deep(commitment.final_coeffs.coeffs@);
    let final_poly = left.take((left.len() / pow2(params.config.rate_bits as nat)) as int);
    &&& is_commitment_of(
        commitment,
        hasher,
        ctx,
        coeffs,
        params.reduction_arity_bits@,
        params.config.cap_height,
        start,
    )
    &&& forall|w: u64|
        !pow_accepts(
            #[trigger] spec_pow_response(
                hasher,
                ctx,
                spec_pow_view(hasher, ctx, start, commitment, final_poly),
                w,
            ),
            params.config.proof_of_work_bits,
        )
}

/// Opens the oracles and the layers at every queried position.
fn fri_query_rounds(
    initial_merkle_trees: &Vec<&MerkleTree>,
    trees: &Vec<MerkleTree>,
    arity_bits: &Vec<usize>,
    raw_indices: &Vec<u64>,
    n_log: usize,
) -> (rounds: Vec<FriQueryRound>)
    requires
        trees.len() == arity_bits.len(),
        pow2(n_log as nat) <= usize::MAX,
        spec_total_bits(arity_bits@, arity_bits.len() as nat) <= n_log,
        forall|o: int|
            0 <= o < initial_merkle_trees.len() ==> (#[trigger] initial_merkle_trees[o]).shaped()
                && initial_merkle_trees[o].leaves.len() == pow2(n_log as nat),
        forall|k: int|
            0 <= k < trees.len() ==> (#[trigger] trees[k]).shaped() && trees[k].leaves.len()
                == pow2((n_log - spec_total_bits(arity_bits@, (k + 1) as nat)) as nat),
    ensures
        rounds.len() == raw_indices.len(),
        forall|q: int|
            0 <= q < rounds.len() ==> is_query_round_of(
                #[trigger] rounds[q],
                initial_merkle_trees@,
                trees@,
                arity_bits@,
                (raw_indices[q] % (pow2(n_log as nat) as u64)) as int,
            ),
{
    let n = pow2_usize(n_log);
    let mut rounds: Vec<FriQueryRound> = Vec::new();
    let mut q: usize = 0;
    proof {
        lemma_pow2_pos(n_log as nat);
    }
    while q < raw_indices.len()
        invariant
            q <= raw_indices.len(),
            n == pow2(n_log as nat),
            n > 0,
            trees.len() == arity_bits.len(),
            spec_total_bits(arity_bits@, arity_bits.len() as nat) <= n_log,
            forall|o: int|
                0 <= o < initial_merkle_trees.len() ==> (
                #[trigger] initial_merkle_trees[o]).shaped()
                    && initial_merkle_trees[o].leaves.len() == n,
            forall|k: int|
                0 <= k < trees.len() ==> (#[trigger] trees[k]).shaped() && trees[k].leaves.len()
                    == pow2((n_log - spec_total_bits(arity_bits@, (k + 1) as nat)) as nat),
            rounds.len() == q,
            forall|t: int|
                0 <= t < q ==> is_query_round_of(
                    #[trigger] rounds[t],
                    initial_merkle_trees@,
                    trees@,
                    arity_bits@,
                    (raw_indices[t] % (n as u64)) as int,
                ),
        decreases raw_indices.len() - q,
    {
        let x_index = (raw_indices[q] % (n as u64)) as usize;
        let round = fri_prover_query_round(initial_merkle_trees, trees, arity_bits, x_index, n_log);
        rounds.push(round);
        q = q + 1;
    }
    rounds
}

/// The caps of the trees.
fn copy_caps(trees: &Vec<MerkleTree>) -> (caps: Vec<MerkleCap>)
    ensures
        caps.len() == trees.len(),
        forall|k: int| 0 <= k < trees.len() ==> (#[trigger] caps[k]).0@ == trees[k].cap.0@,
{
    let mut caps: Vec<MerkleCap> = Vec::new();
    let mut k: usize = 0;
    while k < trees.len()
        invariant
            k <= trees.len(),
            caps.len() == k,
            forall|t: int| 0 <= t < k ==> (#[trigger] caps[t]).0@ == trees[t].cap.0@,
        decreases trees.len() - k,
    {
        let cap = &trees[k].cap;
        let mut digests: Vec<HashOut> = Vec::new();
        let mut j: usize = 0;
        while j < cap.0.len()
            invariant
                j <= cap.0.len(),
                digests.len() == j,
                forall|t: int| 0 <= t < j ==> digests[t] == cap.0[t],
            decreases cap.0.len() - j,
        {
            digests.push(cap.0[j]);
            j = j + 1;
        }
        proof {
            assert(digests@ =~= cap.0@);
        }
        caps.push(MerkleCap(digests));
        k = k + 1;
    }
    caps
}

/// The first `keep` coefficients of a polynomial.
fn leading_coeffs(coeffs: &PolynomialCoeffsExt, keep: usize) -> (r: Vec<Vec<u64>>)
    requires
        keep <= coeffs.coeffs.len(),
    ensures
        deep(r@) == deep(coeffs.coeffs@).take(keep as int),
{
    let mut r: Vec<Vec<u64>> = Vec::new();
    let mut i: usize = 0;
    while i < keep
        invariant
            i <= keep,
            keep <= coeffs.coeffs.len(),
            r.len() == i,
            forall|t: int| 0 <= t < i ==> (#[trigger] r[t])@ == coeffs.coeffs[t]@,
        decreases keep - i,
    {
        r.push(coeffs.coeffs[i].clone());
        i = i + 1;
    }
    proof {
        assert(deep(r@) =~= deep(coeffs.coeffs@).take(keep as int));
    }
    r
}

/// Runs the low-degree test on the polynomial `lde_polynomial_coeffs`,
/// whose upper coefficients the rate made zero, and opens the oracles
/// behind `initial_merkle_trees` at the queried positions.
#[verifier::rlimit(40)]
pub fn fri_proof<H: Hasher>(
    ctx: &FieldContext,
    hasher: &H,
    initial_merkle_trees: &Vec<&MerkleTree>,
    lde_polynomial_coeffs: PolynomialCoeffsExt,
    challenger: &mut Challenger,
    fri_params: &FriParams,
) -> (r: Result<FriProof, FriError>)
    requires
        ctx.wf(),
        is_pow2(lde_polynomial_coeffs.coeffs.len() as int),
        spec_log2(lde_polynomial_coeffs.coeffs.len() as int) <= ctx.two_adicity,
        ctx.all_ext(deep(lde_polynomial_coeffs.coeffs@)),
        fri_params.fits(spec_log2(lde_polynomial_coeffs.coeffs.len() as int)),
        forall|o: int|
            0 <= o < initial_merkle_trees.len() ==> (#[trigger] initial_merkle_trees[o]).shaped()
                && initial_merkle_trees[o].leaves.len() == lde_polynomial_coeffs.coeffs.len(),
    ensures
        match r {
            Ok(proof) => exists|commitment: FriCommitment|
                is_fri_proof_of(
                    proof,
                    commitment,
                    hasher,
                    *ctx,
                    initial_merkle_trees@,
                    deep(lde_polynomial_coeffs.coeffs@),
                    *fri_params,
                    old(challenger).view(),
                ) && final(challenger).view() == spec_final_view(
                    proof,
                    commitment,
                    hasher,
                    *ctx,
                    *fri_params,
                    old(challenger).view(),
                ),
            Err(e) => e == FriError::ProofOfWorkFailed && exists|commitment: FriCommitment|
                pow_fails_for(
                    commitment,
                    hasher,
                    *ctx,
                    deep(lde_polynomial_coeffs.coeffs@),
                    *fri_params,
                    old(challenger).view(),
                ),
        },
        fri_params.config.proof_of_work_bits == 0 ==> r is Ok,
{
    let n = lde_polynomial_coeffs.coeffs.len();
    let n_log = log2_strict(n);
    let ghost coeffs = deep(lde_polynomial_coeffs.coeffs@);
    let ghost start = challenger.view();
    let ghost arity_bits = fri_params.reduction_arity_bits@;
    let ghost total = spec_total_bits(arity_bits, arity_bits.len() as nat);
    let commitment = fri_committed_trees(
        ctx,
        hasher,
        lde_polynomial_coeffs,
        challenger,
        &fri_params.reduction_arity_bits,
        fri_params.config.cap_height,
    );
    // drop the coefficients that the rate made zero
    let left = commitment.final_coeffs.coeffs.len();
    proof {
        lemma_pow2_monotone(fri_params.config.rate_bits as nat, (n_log - total) as nat);
        lemma_pow2_pos(fri_params.config.rate_bits as nat);
    }
    let keep = left / pow2_usize(fri_params.config.rate_bits);
    let final_coeffs = leading_coeffs(&commitment.final_coeffs, keep);
    challenger.observe_extension_elements(&final_coeffs);
    let ghost pow_view = challenger.view();
    let found = fri_proof_of_work(ctx, hasher, challenger, fri_params.config.proof_of_work_bits);
    let pow_witness = match found {
        Some(witness) => witness,
        None => {
            proof {
                assert(pow_fails_for(commitment, hasher, *ctx, coeffs, *fri_params, start));
            }
            return Err(FriError::ProofOfWorkFailed);
        },
    };
    let ghost query_view = challenger.view();
    let raw_indices = challenger.get_n_challenges(
        hasher,
        ctx,
        fri_params.config.num_query_rounds,
    );
    proof {
        crate::challenger::lemma_challenges_len(
            query_view,
            hasher,
            *ctx,
            fri_params.config.num_query_rounds as nat,
        );
        lemma_pow2_pos(n_log as nat);
    }
    let query_round_proofs = fri_query_rounds(
        initial_merkle_trees,
        &commitment.trees,
        &fri_params.reduction_arity_bits,
        &raw_indices,
        n_log,
    );
    let commit_phase_merkle_caps = copy_caps(&commitment.trees);
    let proof = FriProof {
        commit_phase_merkle_caps,
        query_round_proofs,
        final_poly: PolynomialCoeffsExt { coeffs: final_coeffs },
        pow_witness,
    };
    proof {
        assert(is_fri_proof_of(
            proof,
            commitment,
            hasher,
            *ctx,
            initial_merkle_trees@,
            coeffs,
            *fri_params,
            start,
        ));
        assert(coeffs == deep(lde_polynomial_coeffs.coeffs@));
        assert(start == old(challenger).view());
    }
    let r: Result<FriProof, FriError> = Ok(proof);
    proof {
        assert(r is Ok);
        assert(is_fri_proof_of(
            r->Ok_0,
            commitment,
            hasher,
            *ctx,
            initial_merkle_trees@,
            deep(lde_polynomial_coeffs.coeffs@),
            *fri_params,
            old(challenger).view(),
        ) && challenger.view() == spec_final_view(
            r->Ok_0,
            commitment,
            hasher,
            *ctx,
            *fri_params,
            old(challenger).view(),
        ));
    }
    r
}

/// Every path of an opening proof verifies against the cap that it
/// belongs to: those of the oracles against the oracles' caps, and those
/// of the layers against the caps in the proof.
pub proof fn lemma_fri_proof_verifies<H: Hasher>(
    proof: FriProof,
    commitment: FriCommitment,
    hasher: &H,
    ctx: FieldContext,
    initial_trees: Seq<&MerkleTree>,
    coeffs: Seq<Seq<u64>>,
    params: FriParams,
    start: ChallengerView,
    q: int,
)
    requires
        is_fri_proof_of(proof, commitment, hasher, ctx, initial_trees, coeffs, params, start),
        forall|o: int| 0 <= o < initial_trees.len() ==> (#[trigger] initial_trees[o]).wf(hasher),
        0 <= q < params.config.num_query_rounds,
    ensures
        forall|o: int|
            0 <= o < initial_trees.len() ==> spec_verify_merkle_proof(
                hasher,
                (#[trigger] proof.query_round_proofs[q].initial_trees_proof.evals_proofs[o]).evals@,
                spec_query_index(proof, commitment, hasher, ctx, coeffs.len(), params, start, q),
                initial_trees[o].cap.0@,
                proof.query_round_proofs[q].initial_trees_proof.evals_proofs[o].merkle_proof.siblings@,
            ),
        forall|k: int|
            0 <= k < proof.commit_phase_merkle_caps.len() ==> spec_verify_merkle_proof(
                hasher,
                (#[trigger] proof.query_round_proofs[q].steps[k]).evals@,
                spec_query_index(proof, commitment, hasher, ctx, coeffs.len(), params, start, q)
                    / (pow2(spec_total_bits(params.reduction_arity_bits@, (k + 1) as nat)) as int),
                proof.commit_phase_merkle_caps[k].0@,
                proof.query_round_proofs[q].steps[k].merkle_proof.siblings@,
            ),
{
    let arity_bits = params.reduction_arity_bits@;
    let x_index = spec_query_index(
        proof,
        commitment,
        hasher,
        ctx,
        coeffs.len(),
        params,
        start,
        q,
    );
    let round = proof.query_round_proofs[q];
    assert(is_query_round_of(round, initial_trees, commitment.trees@, arity_bits, x_index));
    assert forall|o: int| 0 <= o < initial_trees.len() implies spec_verify_merkle_proof(
        hasher,
        (#[trigger] round.initial_trees_proof.evals_proofs[o]).evals@,
        x_index,
        initial_trees[o].cap.0@,
        round.initial_trees_proof.evals_proofs[o].merkle_proof.siblings@,
    ) by {
        lemma_opening_verifies(
            hasher,
            *initial_trees[o],
            x_index,
            round.initial_trees_proof.evals_proofs[o].evals@,
            round.initial_trees_proof.evals_proofs[o].merkle_proof,
        );
    }
    assert forall|k: int| 0 <= k < proof.commit_phase_merkle_caps.len() implies spec_verify_merkle_proof(
        hasher,
        (#[trigger] round.steps[k]).evals@,
        x_index / (pow2(spec_total_bits(arity_bits, (k + 1) as nat)) as int),
        proof.commit_phase_merkle_caps[k].0@,
        round.steps[k].merkle_proof.siblings@,
    ) by {
        assert(commitment.trees[k].wf(hasher));
        lemma_opening_verifies(
            hasher,
            commitment.trees[k],
            x_index / (pow2(spec_total_bits(arity_bits, (k + 1) as nat)) as int),
            round.steps[k].evals@,
            round.steps[k].merkle_proof,
        );
    }
}

} // verus!
