//! The polynomial oracle: a batch of polynomials, low-degree-extended and
//! committed to by a Merkle tree over the rows of their values.

use crate::bits::{
    lemma_log2_pow2, lemma_pow2_is_pow2, lemma_pow2_log2, lemma_reverse_bits_bound, log2_strict,
    reverse_bits, spec_log2, spec_reverse_bits,
};
use crate::extension::deep;
use crate::extension_polynomial::PolynomialCoeffsExt;
use crate::field::FieldContext;
use crate::challenger::Challenger;
use crate::fri::{FriBatchInfo, FriError, FriInstanceInfo, FriParams, FriProof};
use crate::fri_prover::{
    fri_proof, is_fri_proof_of, pow_fails_for, spec_final_view, FriCommitment,
};
use crate::hash::Hasher;
use crate::merkle_tree::MerkleTree;
use crate::polynomial::{FftRootTable, PolynomialCoeffs, PolynomialValues};
use crate::reducing::{coeffs_of, max_len, ReducingFactor};
use crate::util::{rectangular, reverse_index_bits, transpose};
use vstd::arithmetic::power2::{is_pow2, lemma_pow2_adds, lemma_pow2_pos, pow2};
use vstd::prelude::*;
use vstd::slice::slice_subrange;

verus! {

/// The number of random field elements appended to each leaf of a blinded batch.
pub const SALT_SIZE: usize = 4;

/// The number of salt columns of a batch.
pub open spec fn spec_salt_size(blinding: bool) -> nat {
    if blinding {
        SALT_SIZE as nat
    } else {
        0
    }
}

/// Whether the polynomials can be committed together: at least one of them,
/// all of length `2^degree_log`, with canonical coefficients.
pub open spec fn uniform_batch(
    ctx: FieldContext,
    polynomials: Seq<PolynomialCoeffs>,
    degree_log: nat,
) -> bool {
    &&& polynomials.len() >= 1
    &&& forall|j: int|
        0 <= j < polynomials.len() ==> (#[trigger] polynomials[j]).coeffs.len() == pow2(degree_log)
            && ctx.all_elems(polynomials[j].coeffs@)
}

/// Whether `columns` holds the low-degree extension of each polynomial,
/// followed by the salt columns.
pub open spec fn is_lde_of(
    ctx: FieldContext,
    columns: Seq<Vec<u64>>,
    polynomials: Seq<PolynomialCoeffs>,
    degree_log: nat,
    rate_bits: nat,
    blinding: bool,
) -> bool {
    &&& columns.len() == polynomials.len() + spec_salt_size(blinding)
    &&& forall|j: int|
        0 <= j < columns.len() ==> (#[trigger] columns[j]).len() == pow2(degree_log + rate_bits)
    &&& forall|j: int, i: nat|
        0 <= j < polynomials.len() && i < pow2(degree_log + rate_bits)
            ==> columns[j][i as int] == #[trigger] ctx.spec_lde_value(
            polynomials[j].coeffs@,
            rate_bits,
            i,
        )
}

/// A way to compute the low-degree extension of a batch of polynomials.
/// Every strategy computes the same values; strategies differ in where and
/// how fast they compute them.
pub trait LdeStrategy {
    /// The values of the low-degree extension of each polynomial, one
    /// column per polynomial.
    fn extend(
        &self,
        ctx: &FieldContext,
        polynomials: &Vec<PolynomialCoeffs>,
        rate_bits: usize,
        fft_root_table: Option<&FftRootTable>,
    ) -> (columns: Vec<Vec<u64>>)
        requires
            ctx.wf(),
            polynomials.len() >= 1,
            is_pow2(polynomials[0].coeffs.len() as int),
            uniform_batch(*ctx, polynomials@, spec_log2(polynomials[0].coeffs.len() as int)),
            spec_log2(polynomials[0].coeffs.len() as int) + rate_bits <= ctx.two_adicity,
            pow2((spec_log2(polynomials[0].coeffs.len() as int) + rate_bits) as nat) <= usize::MAX,
            fft_root_table matches Some(table) ==> {
                &&& table.wf(*ctx)
                &&& table.roots.len() == pow2(
                    (spec_log2(polynomials[0].coeffs.len() as int) + rate_bits) as nat,
                )
                &&& table.root == ctx.spec_root_of_unity(
                    (spec_log2(polynomials[0].coeffs.len() as int) + rate_bits) as nat,
                )
            },
        ensures
            is_lde_of(
                *ctx,
                columns@,
                polynomials@,
                spec_log2(polynomials[0].coeffs.len() as int),
                rate_bits as nat,
                false,
            ),
            forall|j: int| 0 <= j < columns.len() ==> ctx.all_elems(#[trigger] columns[j]@),
    ;
}

/// The strategy that pads every polynomial with zeros and transforms it
/// over the coset, one polynomial after the other.
#[derive(Clone, Copy, Debug, Default)]
pub struct CosetFftStrategy;

impl LdeStrategy for CosetFftStrategy {
    fn extend(
        &self,
        ctx: &FieldContext,
        polynomials: &Vec<PolynomialCoeffs>,
        rate_bits: usize,
        fft_root_table: Option<&FftRootTable>,
    ) -> (columns: Vec<Vec<u64>>) {
        let degree = polynomials[0].len();
        let degree_log = log2_strict(degree);
        let ghost lde_bits = (degree_log + rate_bits) as nat;
        proof {
            lemma_pow2_adds(degree_log as nat, rate_bits as nat);
            lemma_pow2_is_pow2(lde_bits);
            lemma_log2_pow2(lde_bits);
            lemma_pow2_pos(rate_bits as nat);
        }
        let extended = degree * crate::bits::pow2_usize_checked(rate_bits, degree);
        let mut columns: Vec<Vec<u64>> = Vec::new();
        let mut j: usize = 0;
        while j < polynomials.len()
            invariant
                j <= polynomials.len(),
                ctx.wf(),
                degree == pow2(degree_log as nat),
                degree_log == spec_log2(degree as int),
                lde_bits == degree_log + rate_bits,
                lde_bits <= ctx.two_adicity,
                extended == pow2(lde_bits),
                extended == degree * pow2(rate_bits as nat),
                is_pow2(extended as int),
                spec_log2(extended as int) == lde_bits,
                uniform_batch(*ctx, polynomials@, degree_log as nat),
                fft_root_table matches Some(table) ==> {
                    &&& table.wf(*ctx)
                    &&& table.roots.len() == pow2(lde_bits)
                    &&& table.root == ctx.spec_root_of_unity(lde_bits)
                },
                columns.len() == j,
                forall|t: int|
                    0 <= t < j ==> (#[trigger] columns[t]).len() == extended && ctx.all_elems(
                        columns[t]@,
                    ),
                forall|t: int, i: nat|
                    0 <= t < j && i < extended ==> columns[t][i as int]
                        == #[trigger] ctx.spec_lde_value(
                        polynomials[t].coeffs@,
                        rate_bits as nat,
                        i,
                    ),
            decreases polynomials.len() - j,
        {
            let p = &polynomials[j];
            assert(p.coeffs.len() == degree);
            let padded = p.lde(rate_bits);
            proof {
                let blowup = pow2(rate_bits as nat) as int;
                lemma_pow2_pos(rate_bits as nat);
                assert(degree * blowup >= degree) by (nonlinear_arith)
                    requires
                        blowup >= 1,
                        degree >= 0,
                ;
                assert(padded.coeffs.len() == extended);
                assert forall|t: int| 0 <= t < padded.coeffs.len() implies ctx.is_elem(
                    #[trigger] padded.coeffs[t],
                ) by {
                    if t < degree {
                        assert(padded.coeffs[t] == p.coeffs[t]);
                    }
                }
            }
            let values = padded.coset_fft_with_options(ctx, ctx.coset_shift, fft_root_table);
            proof {
                assert forall|i: nat| i < extended implies values.values[i as int]
                    == #[trigger] ctx.spec_lde_value(p.coeffs@, rate_bits as nat, i) by {
                    assert(values.values[i as int] == ctx.spec_eval(
                        padded.coeffs@,
                        ctx.coset_point(ctx.coset_shift, ctx.spec_root_of_unity(lde_bits), i),
                    ));
                }
            }
            columns.push(values.values);
            j = j + 1;
        }
        columns
    }
}

/// A batch of polynomials of one degree with the Merkle tree that commits to
/// their low-degree extension.
pub struct PolynomialBatch {
    /// The field that the polynomials live in.
    pub ctx: FieldContext,
    /// The committed polynomials.
    pub polynomials: Vec<PolynomialCoeffs>,
    /// The tree over the rows of extended values, in bit-reversed order.
    pub merkle_tree: MerkleTree,
    /// The logarithm of the polynomials' length.
    pub degree_log: usize,
    /// The logarithm of the blow-up of the extension.
    pub rate_bits: usize,
    /// Whether each leaf ends in `SALT_SIZE` random elements.
    pub blinding: bool,
}

impl PolynomialBatch {
    /// The logarithm of the number of leaves.
    pub open spec fn lde_bits(self) -> nat {
        (self.degree_log + self.rate_bits) as nat
    }

    /// The batch's invariant.
    ///
    /// All polynomials have length `2^degree_log`. The tree has
    /// `2^(degree_log + rate_bits)` leaves, each as long as the number of
    /// polynomials plus the salt. The leaf at the bit-reversed position of
    /// `i` holds, for each polynomial, the `i`-th value of its low-degree
    /// extension.
    pub open spec fn wf(self) -> bool {
        &&& self.ctx.wf()
        &&& uniform_batch(self.ctx, self.polynomials@, self.degree_log as nat)
        &&& self.lde_bits() <= self.ctx.two_adicity
        &&& self.merkle_tree.shaped()
        &&& self.merkle_tree.leaves.len() == pow2(self.lde_bits())
        &&& rectangular(
            self.merkle_tree.leaves@,
            (self.polynomials.len() + spec_salt_size(self.blinding)) as nat,
        )
        &&& forall|i: nat, j: int|
            i < pow2(self.lde_bits()) && 0 <= j < self.polynomials.len()
                ==> self.merkle_tree.leaves[spec_reverse_bits(i, self.lde_bits()) as int][j]
                == #[trigger] self.ctx.spec_lde_value(
                self.polynomials[j].coeffs@,
                self.rate_bits as nat,
                i,
            )
    }

    /// The values of the low-degree extension of each polynomial, one column
    /// per polynomial, followed by `SALT_SIZE` random columns if `blinding`.
    pub fn lde_values(
        ctx: &FieldContext,
        polynomials: &Vec<PolynomialCoeffs>,
        rate_bits: usize,
        blinding: bool,
        fft_root_table: Option<&FftRootTable>,
    ) -> (columns: Vec<Vec<u64>>)
        requires
            ctx.wf(),
            polynomials.len() >= 1,
            is_pow2(polynomials[0].coeffs.len() as int),
            uniform_batch(*ctx, polynomials@, spec_log2(polynomials[0].coeffs.len() as int)),
            spec_log2(polynomials[0].coeffs.len() as int) + rate_bits <= ctx.two_adicity,
            pow2((spec_log2(polynomials[0].coeffs.len() as int) + rate_bits) as nat) <= usize::MAX,
            fft_root_table matches Some(table) ==> {
                &&& table.wf(*ctx)
                &&& table.roots.len() == pow2(
                    (spec_log2(polynomials[0].coeffs.len() as int) + rate_bits) as nat,
                )
                &&& table.root == ctx.spec_root_of_unity(
                    (spec_log2(polynomials[0].coeffs.len() as int) + rate_bits) as nat,
                )
            },
        ensures
            is_lde_of(
                *ctx,
                columns@,
                polynomials@,
                spec_log2(polynomials[0].coeffs.len() as int),
                rate_bits as nat,
                blinding,
            ),
            forall|j: int| 0 <= j < columns.len() ==> ctx.all_elems(#[trigger] columns[j]@),
    {
        Self::lde_values_with(
            &CosetFftStrategy,
            ctx,
            polynomials,
            rate_bits,
            blinding,
            fft_root_table,
        )
    }

    /// Like `lde_values`, with the transform left to `strategy`.
    pub fn lde_values_with<S: LdeStrategy>(
        strategy: &S,
        ctx: &FieldContext,
        polynomials: &Vec<PolynomialCoeffs>,
        rate_bits: usize,
        blinding: bool,
        fft_root_table: Option<&FftRootTable>,
    ) -> (columns: Vec<Vec<u64>>)
        requires
            ctx.wf(),
            polynomials.len() >= 1,
            is_pow2(polynomials[0].coeffs.len() as int),
            uniform_batch(*ctx, polynomials@, spec_log2(polynomials[0].coeffs.len() as int)),
            spec_log2(polynomials[0].coeffs.len() as int) + rate_bits <= ctx.two_adicity,
            pow2((spec_log2(polynomials[0].coeffs.len() as int) + rate_bits) as nat) <= usize::MAX,
            fft_root_table matches Some(table) ==> {
                &&& table.wf(*ctx)
                &&& table.roots.len() == pow2(
                    (spec_log2(polynomials[0].coeffs.len() as int) + rate_bits) as nat,
                )
                &&& table.root == ctx.spec_root_of_unity(
                    (spec_log2(polynomials[0].coeffs.len() as int) + rate_bits) as nat,
                )
            },
        ensures
            is_lde_of(
                *ctx,
                columns@,
                polynomials@,
                spec_log2(polynomials[0].coeffs.len() as int),
                rate_bits as nat,
                blinding,
            ),
            forall|j: int| 0 <= j < columns.len() ==> ctx.all_elems(#[trigger] columns[j]@),
    {
        let degree = polynomials[0].len();
        let degree_log = log2_strict(degree);
        let ghost lde_bits = (degree_log + rate_bits) as nat;
        proof {
            lemma_pow2_adds(degree_log as nat, rate_bits as nat);
            lemma_pow2_pos(rate_bits as nat);
            lemma_pow2_pos(degree_log as nat);
        }
        let extended = degree * crate::bits::pow2_usize_checked(rate_bits, degree);
        let mut columns = strategy.extend(ctx, polynomials, rate_bits, fft_root_table);
        if blinding {
            let mut s: usize = 0;
            while s < SALT_SIZE
                invariant
                    s <= SALT_SIZE,
                    ctx.wf(),
                            extended == pow2(lde_bits),
                    lde_bits == degree_log + rate_bits,
                    columns.len() == polynomials.len() + s,
                    forall|t: int|
                        0 <= t < columns.len() ==> (#[trigger] columns[t]).len() == extended
                            && ctx.all_elems(columns[t]@),
                    forall|t: int, i: nat|
                        0 <= t < polynomials.len() && i < extended ==> columns[t][i as int]
                            == #[trigger] ctx.spec_lde_value(
                            polynomials[t].coeffs@,
                            rate_bits as nat,
                            i,
                        ),
                decreases SALT_SIZE - s,
            {
                columns.push(ctx.rand_vec(extended));
                s = s + 1;
            }
        }
        columns
    }

    /// Commits to extended values computed before: transposes the columns
    /// into rows, puts the rows in bit-reversed order, and builds the tree.
    #[verifier::rlimit(40)]
    pub fn from_lde_values<H: Hasher>(
        ctx: &FieldContext,
        hasher: &H,
        polynomials: Vec<PolynomialCoeffs>,
        lde_values: Vec<Vec<u64>>,
        rate_bits: usize,
        blinding: bool,
        cap_height: usize,
    ) -> (batch: PolynomialBatch)
        requires
            ctx.wf(),
            polynomials.len() >= 1,
            is_pow2(polynomials[0].coeffs.len() as int),
            uniform_batch(*ctx, polynomials@, spec_log2(polynomials[0].coeffs.len() as int)),
            spec_log2(polynomials[0].coeffs.len() as int) + rate_bits <= ctx.two_adicity,
            pow2((spec_log2(polynomials[0].coeffs.len() as int) + rate_bits) as nat) <= usize::MAX,
            cap_height <= spec_log2(polynomials[0].coeffs.len() as int) + rate_bits,
            is_lde_of(
                *ctx,
                lde_values@,
                polynomials@,
                spec_log2(polynomials[0].coeffs.len() as int),
                rate_bits as nat,
                blinding,
            ),
        ensures
            batch.wf(),
            batch.merkle_tree.wf(hasher),
            batch.merkle_tree.cap_height() == cap_height,
            batch.ctx == *ctx,
            batch.polynomials == polynomials,
            batch.degree_log == spec_log2(polynomials[0].coeffs.len() as int),
            batch.rate_bits == rate_bits,
            batch.blinding == blinding,
            forall|i: nat, j: int|
                i < pow2(batch.lde_bits()) && 0 <= j < lde_values.len()
                    ==> #[trigger] batch.merkle_tree.leaves[spec_reverse_bits(
                    i,
                    batch.lde_bits(),
                ) as int][j] == lde_values[j][i as int],
    {
        let degree = polynomials[0].len();
        let degree_log = log2_strict(degree);
        let ghost lde_bits = (degree_log + rate_bits) as nat;
        let ghost width = lde_values.len() as nat;
        proof {
            lemma_pow2_is_pow2(lde_bits);
            lemma_log2_pow2(lde_bits);
            lemma_pow2_pos(lde_bits);
            assert(rectangular(lde_values@, pow2(lde_bits)));
        }
        let rows = transpose(&lde_values);
        let leaves = reverse_index_bits(&rows);
        proof {
            assert forall|t: int| 0 <= t < leaves.len() implies (#[trigger] leaves[t]).len()
                == width by {
                let tn = t as nat;
                crate::bits::lemma_unreverse_bits_bound(tn, lde_bits);
                let a = crate::bits::spec_unreverse_bits(tn, lde_bits) as int;
                assert(leaves[tn as int]@ == rows[a]@);
                assert(rows[a].len() == width);
            }
            assert forall|i: nat, j: int| i < pow2(lde_bits) && 0 <= j < width implies (
            #[trigger] leaves[spec_reverse_bits(i, lde_bits) as int][j]) == lde_values[j][i as int] by {
                lemma_reverse_bits_bound(i, lde_bits);
                assert(leaves[spec_reverse_bits(i, lde_bits) as int]@ == rows[i as int]@);
                assert(rows[i as int][j] == lde_values[j][i as int]);
            }
        }
        let merkle_tree = MerkleTree::new(hasher, leaves, cap_height);
        let batch = PolynomialBatch {
            ctx: *ctx,
            polynomials,
            merkle_tree,
            degree_log,
            rate_bits,
            blinding,
        };
        proof {
            assert forall|i: nat, j: int|
                i < pow2(batch.lde_bits()) && 0 <= j < batch.polynomials.len() implies (
            batch.merkle_tree.leaves[spec_reverse_bits(i, batch.lde_bits()) as int][j])
                == #[trigger] batch.ctx.spec_lde_value(
                batch.polynomials[j].coeffs@,
                batch.rate_bits as nat,
                i,
            ) by {
                assert(leaves[spec_reverse_bits(i, lde_bits) as int][j] == lde_values[j][i as int]);
            }
        }
        batch
    }

    /// Creates a polynomial commitment for the polynomials `polynomials`.
    pub fn from_coeffs<H: Hasher>(
        ctx: &FieldContext,
        hasher: &H,
        polynomials: Vec<PolynomialCoeffs>,
        rate_bits: usize,
        blinding: bool,
        cap_height: usize,
        fft_root_table: Option<&FftRootTable>,
    ) -> (batch: PolynomialBatch)
        requires
            ctx.wf(),
            polynomials.len() >= 1,
            is_pow2(polynomials[0].coeffs.len() as int),
            uniform_batch(*ctx, polynomials@, spec_log2(polynomials[0].coeffs.len() as int)),
            spec_log2(polynomials[0].coeffs.len() as int) + rate_bits <= ctx.two_adicity,
            pow2((spec_log2(polynomials[0].coeffs.len() as int) + rate_bits) as nat) <= usize::MAX,
            cap_height <= spec_log2(polynomials[0].coeffs.len() as int) + rate_bits,
            fft_root_table matches Some(table) ==> {
                &&& table.wf(*ctx)
                &&& table.roots.len() == pow2(
                    (spec_log2(polynomials[0].coeffs.len() as int) + rate_bits) as nat,
                )
                &&& table.root == ctx.spec_root_of_unity(
                    (spec_log2(polynomials[0].coeffs.len() as int) + rate_bits) as nat,
                )
            },
        ensures
            batch.wf(),
            batch.merkle_tree.wf(hasher),
            batch.merkle_tree.cap_height() == cap_height,
            batch.ctx == *ctx,
            batch.polynomials == polynomials,
            batch.degree_log == spec_log2(polynomials[0].coeffs.len() as int),
            batch.rate_bits == rate_bits,
            batch.blinding == blinding,
    {
        let lde_values = Self::lde_values(ctx, &polynomials, rate_bits, blinding, fft_root_table);
        Self::from_lde_values(
            ctx,
            hasher,
            polynomials,
            lde_values,
            rate_bits,
            blinding,
            cap_height,
        )
    }

    /// Creates a polynomial commitment for the polynomials that interpolate `values`.
    pub fn from_values<H: Hasher>(
        ctx: &FieldContext,
        hasher: &H,
        values: Vec<PolynomialValues>,
        rate_bits: usize,
        blinding: bool,
        cap_height: usize,
        fft_root_table: Option<&FftRootTable>,
    ) -> (batch: PolynomialBatch)
        requires
            ctx.wf(),
            values.len() >= 1,
            is_pow2(values[0].values.len() as int),
            forall|j: int|
                0 <= j < values.len() ==> (#[trigger] values[j]).values.len()
                    == values[0].values.len() && ctx.all_elems(values[j].values@),
            spec_log2(values[0].values.len() as int) + rate_bits <= ctx.two_adicity,
            pow2((spec_log2(values[0].values.len() as int) + rate_bits) as nat) <= usize::MAX,
            cap_height <= spec_log2(values[0].values.len() as int) + rate_bits,
            fft_root_table matches Some(table) ==> {
                &&& table.wf(*ctx)
                &&& table.roots.len() == pow2(
                    (spec_log2(values[0].values.len() as int) + rate_bits) as nat,
                )
                &&& table.root == ctx.spec_root_of_unity(
                    (spec_log2(values[0].values.len() as int) + rate_bits) as nat,
                )
            },
        ensures
            batch.wf(),
            batch.merkle_tree.wf(hasher),
            batch.merkle_tree.cap_height() == cap_height,
            batch.ctx == *ctx,
            batch.polynomials.len() == values.len(),
            forall|j: int, i: int|
                0 <= j < values.len() && 0 <= i < values[0].values.len()
                    ==> batch.polynomials[j].coeffs[i] == #[trigger] ctx.spec_ifft_coeff(
                    values[j].values@,
                    i as nat,
                ),
            batch.degree_log == spec_log2(values[0].values.len() as int),
            batch.rate_bits == rate_bits,
            batch.blinding == blinding,
    {
        let n = values[0].len();
        let mut coeffs: Vec<PolynomialCoeffs> = Vec::new();
        let mut j: usize = 0;
        proof {
            lemma_pow2_log2(n as int);
        }
        while j < values.len()
            invariant
                j <= values.len(),
                ctx.wf(),
                n == values[0].values.len(),
                is_pow2(n as int),
                spec_log2(n as int) <= ctx.two_adicity,
                forall|t: int|
                    0 <= t < values.len() ==> (#[trigger] values[t]).values.len() == n
                        && ctx.all_elems(values[t].values@),
                coeffs.len() == j,
                forall|t: int|
                    0 <= t < j ==> (#[trigger] coeffs[t]).coeffs.len() == n && ctx.all_elems(
                        coeffs[t].coeffs@,
                    ),
                forall|t: int, i: int|
                    0 <= t < j && 0 <= i < n ==> coeffs[t].coeffs[i]
                        == #[trigger] ctx.spec_ifft_coeff(values[t].values@, i as nat),
            decreases values.len() - j,
        {
            let v = &values[j];
            assert(v.values.len() == n);
            coeffs.push(v.ifft(ctx));
            j = j + 1;
        }
        Self::from_coeffs(ctx, hasher, coeffs, rate_bits, blinding, cap_height, fft_root_table)
    }

    /// Fetches the extended values at the `index * step`-th point of the
    /// evaluation domain, in natural order: one value per polynomial,
    /// without the salt.
    pub fn get_lde_values(&self, index: usize, step: usize) -> (row: &[u64])
        requires
            self.wf(),
            index * step < pow2(self.lde_bits()),
        ensures
            row@.len() == self.polynomials.len(),
            forall|j: int|
                0 <= j < self.polynomials.len() ==> #[trigger] row@[j] == self.ctx.spec_lde_value(
                    self.polynomials[j].coeffs@,
                    self.rate_bits as nat,
                    (index * step) as nat,
                ),
    {
        let point = index * step;
        let position = reverse_bits(point, self.degree_log + self.rate_bits);
        let leaf = &self.merkle_tree.leaves[position];
        let salt = if self.blinding {
            SALT_SIZE
        } else {
            0
        };
        assert(leaf.len() == self.polynomials.len() + spec_salt_size(self.blinding));
        let row = slice_subrange(leaf.as_slice(), 0, leaf.len() - salt);
        proof {
            assert forall|j: int| 0 <= j < self.polynomials.len() implies #[trigger] row@[j]
                == self.ctx.spec_lde_value(
                self.polynomials[j].coeffs@,
                self.rate_bits as nat,
                point as nat,
            ) by {
                assert(self.merkle_tree.leaves[spec_reverse_bits(
                    point as nat,
                    self.lde_bits(),
                ) as int][j] == self.ctx.spec_lde_value(
                    self.polynomials[j].coeffs@,
                    self.rate_bits as nat,
                    point as nat,
                ));
            }
        }
        row
    }

    /// Like `get_lde_values`, for `width` consecutive points from
    /// `index_start`: one packed vector per polynomial, holding its values
    /// at those points.
    pub fn get_lde_values_packed(&self, index_start: usize, step: usize, width: usize) -> (packed:
        Vec<Vec<u64>>)
        requires
            self.wf(),
            width >= 1,
            index_start + width <= usize::MAX,
            (index_start + width - 1) * step < pow2(self.lde_bits()),
        ensures
            packed.len() == self.polynomials.len(),
            rectangular(packed@, width as nat),
            forall|j: int, w: int|
                0 <= j < self.polynomials.len() && 0 <= w < width ==> packed[j][w]
                    == #[trigger] self.ctx.spec_lde_value(
                    self.polynomials[j].coeffs@,
                    self.rate_bits as nat,
                    ((index_start + w) * step) as nat,
                ),
    {
        let leaf_size = self.polynomials.len();
        let mut packed: Vec<Vec<u64>> = Vec::new();
        let mut j: usize = 0;
        while j < leaf_size
            invariant
                j <= leaf_size,
                leaf_size == self.polynomials.len(),
                self.wf(),
                width >= 1,
                index_start + width <= usize::MAX,
                (index_start + width - 1) * step < pow2(self.lde_bits()),
                packed.len() == j,
                rectangular(packed@, width as nat),
                forall|t: int, w: int|
                    0 <= t < j && 0 <= w < width ==> packed[t][w]
                        == #[trigger] self.ctx.spec_lde_value(
                        self.polynomials[t].coeffs@,
                        self.rate_bits as nat,
                        ((index_start + w) * step) as nat,
                    ),
            decreases leaf_size - j,
        {
            let mut lane: Vec<u64> = Vec::new();
            let mut w: usize = 0;
            while w < width
                invariant
                    w <= width,
                    j < leaf_size,
                    leaf_size == self.polynomials.len(),
                    self.wf(),
                    index_start + width <= usize::MAX,
                    (index_start + width - 1) * step < pow2(self.lde_bits()),
                    lane.len() == w,
                    forall|v: int|
                        0 <= v < w ==> lane[v] == #[trigger] self.ctx.spec_lde_value(
                            self.polynomials[j as int].coeffs@,
                            self.rate_bits as nat,
                            ((index_start + v) * step) as nat,
                        ),
                decreases width - w,
            {
                proof {
                    assert((index_start + w) * step <= (index_start + width - 1) * step)
                        by (nonlinear_arith)
                        requires
                            0 <= w < width,
                            step >= 0,
                            index_start >= 0,
                    ;
                }
                let row = self.get_lde_values(index_start + w, step);
                lane.push(row[j]);
                w = w + 1;
            }
            packed.push(lane);
            j = j + 1;
        }
        packed
    }
}

impl FieldContext {
    /// The sum of the quotients of the first `m` batches under the
    /// challenge `alpha`.
    ///
    /// For each batch, the polynomials opened are combined by the powers of
    /// `alpha` from `alpha^0` on, and the combination `F` is divided:
    /// `(F - F(z)) / (X - z)` at the batch's point `z`. Before a batch's
    /// quotient is added, the sum so far is multiplied by `alpha` to the
    /// number of polynomials of that batch, so that over all batches every
    /// power of `alpha` multiplies one polynomial only.
    pub open spec fn spec_combined_quotients(
        self,
        alpha: Seq<u64>,
        oracles: Seq<&PolynomialBatch>,
        batches: Seq<FriBatchInfo>,
        m: nat,
    ) -> Seq<Seq<u64>>
        decreases m,
    {
        if m == 0 {
            Seq::empty()
        } else {
            let before = self.spec_combined_quotients(alpha, oracles, batches, (m - 1) as nat);
            let batch = batches[m - 1];
            let opened = batch.opened(oracles);
            let composition = self.spec_reduce_polys(alpha, opened);
            let quotient = self.spec_quotient(composition, batch.point@);
            self.spec_poly_add(
                self.spec_poly_scale(before, self.spec_ext_pow(alpha, opened.len())),
                quotient,
            )
        }
    }
}

/// Whether the oracles are well-formed batches over the field `ctx`.
pub open spec fn oracles_over(ctx: FieldContext, oracles: Seq<&PolynomialBatch>) -> bool {
    forall|o: int| 0 <= o < oracles.len() ==> (#[trigger] oracles[o]).wf() && oracles[o].ctx == ctx
}

/// The polynomial that the low-degree test of an opening runs on: the
/// combined quotients of all batches, times `X`.
pub fn opening_polynomial(
    ctx: &FieldContext,
    instance: &FriInstanceInfo,
    oracles: &Vec<&PolynomialBatch>,
    alpha: Vec<u64>,
) -> (final_poly: PolynomialCoeffsExt)
    requires
        ctx.wf(),
        ctx.degree > 1,
        ctx.is_ext(alpha@),
        oracles_over(*ctx, oracles@),
        instance.valid_for(*ctx, oracles@),
    ensures
        deep(final_poly.coeffs@) == seq![ctx.spec_ext_zero()] + ctx.spec_combined_quotients(
            alpha@,
            oracles@,
            instance.batches@,
            instance.batches.len() as nat,
        ),
        ctx.all_ext(deep(final_poly.coeffs@)),
{
    let ghost base = alpha@;
    let mut alpha = ReducingFactor::new(alpha);
    let mut final_poly = PolynomialCoeffsExt::empty();
    let mut m: usize = 0;
    proof {
        assert(deep(final_poly.coeffs@) =~= ctx.spec_combined_quotients(
            base,
            oracles@,
            instance.batches@,
            0,
        ));
    }
    while m < instance.batches.len()
        invariant
            m <= instance.batches.len(),
            ctx.wf(),
            oracles_over(*ctx, oracles@),
            instance.valid_for(*ctx, oracles@),
            alpha.base@ == base,
            alpha.count == 0,
            ctx.is_ext(base),
            final_poly.coeffs.len() < usize::MAX,
            ctx.all_ext(deep(final_poly.coeffs@)),
            deep(final_poly.coeffs@) == ctx.spec_combined_quotients(
                base,
                oracles@,
                instance.batches@,
                m as nat,
            ),
        decreases instance.batches.len() - m,
    {
        let batch = &instance.batches[m];
        assert(batch.valid_for(*ctx, oracles@));
        let mut polys_coeff: Vec<&PolynomialCoeffs> = Vec::new();
        let mut j: usize = 0;
        while j < batch.polynomials.len()
            invariant
                j <= batch.polynomials.len(),
                oracles_over(*ctx, oracles@),
                batch.valid_for(*ctx, oracles@),
                polys_coeff.len() == j,
                forall|t: int|
                    0 <= t < j ==> (#[trigger] polys_coeff[t]).coeffs@ == batch.opened(
                        oracles@,
                    )[t] && ctx.all_elems(polys_coeff[t].coeffs@),
            decreases batch.polynomials.len() - j,
        {
            let fri_poly = batch.polynomials[j];
            let oracle = oracles[fri_poly.oracle_index];
            assert(oracle.wf() && oracle.ctx == *ctx);
            let poly = &oracle.polynomials[fri_poly.polynomial_index];
            polys_coeff.push(poly);
            j = j + 1;
        }
        proof {
            assert(coeffs_of(polys_coeff@) =~= batch.opened(oracles@));
        }
        let composition_poly = alpha.reduce_polys_base(ctx, &polys_coeff);
        // the value at the point is divided out; the division is checked to
        // leave no remainder, and cannot fail for the value computed here
        let value = composition_poly.eval(ctx, &batch.point);
        let quotient = match composition_poly.divide_by_linear_checked(ctx, &batch.point, &value) {
            Ok(quotient) => quotient,
            Err(_) => {
                proof {
                    assert(false);
                }
                PolynomialCoeffsExt::empty()
            },
        };
        let ghost before_len = final_poly.coeffs.len();
        alpha.shift_poly(ctx, &mut final_poly);
        proof {
            assert(deep(quotient.coeffs@).len() == quotient.coeffs.len());
            assert(deep(composition_poly.coeffs@).len() == composition_poly.coeffs.len());
            assert(quotient.coeffs.len() < usize::MAX);
            assert(deep(final_poly.coeffs@).len() == before_len);
        }
        let ghost shifted = deep(final_poly.coeffs@);
        final_poly = final_poly.add(ctx, &quotient);
        proof {
            assert(deep(final_poly.coeffs@).len() == final_poly.coeffs.len());
            assert(ctx.spec_poly_add(shifted, deep(quotient.coeffs@)).len() < usize::MAX);
        }
        m = m + 1;
    }
    final_poly.times_x(ctx)
}

impl PolynomialBatch {
    /// The Merkle leaf at the bit-reversed position of `i` holds, for every
    /// polynomial of the batch, the `i`-th value of its low-degree
    /// extension in natural order.
    pub proof fn lemma_leaf_is_bit_reversed_row(self, i: nat, j: int)
        requires
            self.wf(),
            i < pow2(self.lde_bits()),
            0 <= j < self.polynomials.len(),
        ensures
            spec_reverse_bits(i, self.lde_bits()) < self.merkle_tree.leaves.len(),
            self.merkle_tree.leaves[spec_reverse_bits(i, self.lde_bits()) as int][j]
                == self.ctx.spec_lde_value(self.polynomials[j].coeffs@, self.rate_bits as nat, i),
    {
        lemma_reverse_bits_bound(i, self.lde_bits());
    }

    /// Every leaf is as long as the batch has polynomials, and `SALT_SIZE`
    /// longer where the batch is blinded.
    pub proof fn lemma_leaf_length(self, t: int)
        requires
            self.wf(),
            0 <= t < self.merkle_tree.leaves.len(),
        ensures
            self.merkle_tree.leaves[t].len() == self.polynomials.len() + (if self.blinding {
                SALT_SIZE as int
            } else {
                0
            }),
    {
    }
}

/// The polynomial followed by zero coefficients up to `2^rate_bits` times its length.
pub open spec fn spec_ext_lde(ctx: FieldContext, coeffs: Seq<Seq<u64>>, rate_bits: nat) -> Seq<
    Seq<u64>,
> {
    Seq::new(
        coeffs.len() * pow2(rate_bits),
        |k: int|
            if k < coeffs.len() {
                coeffs[k]
            } else {
                ctx.spec_ext_zero()
            },
    )
}

/// The Merkle trees of the oracles.
pub open spec fn trees_of(oracles: Seq<&PolynomialBatch>) -> Seq<&MerkleTree> {
    Seq::new(oracles.len(), |o: int| &oracles[o].merkle_tree)
}

/// Whether the instance opens polynomials of one length: there is a batch,
/// every batch opens a polynomial, and every oracle holds polynomials of
/// `2^degree_bits` coefficients, extended by `rate_bits`.
pub open spec fn uniform_instance(
    instance: FriInstanceInfo,
    oracles: Seq<&PolynomialBatch>,
    degree_bits: nat,
    rate_bits: nat,
) -> bool {
    &&& instance.batches.len() >= 1
    &&& forall|m: int|
        0 <= m < instance.batches.len() ==> (#[trigger] instance.batches[m]).polynomials.len() >= 1
    &&& forall|o: int|
        0 <= o < oracles.len() ==> (#[trigger] oracles[o]).degree_log == degree_bits
            && oracles[o].rate_bits == rate_bits
}

/// Polynomials of one length have that length as their longest.
pub proof fn lemma_max_len_uniform(polys: Seq<Seq<u64>>, count: nat, len: nat)
    requires
        1 <= count <= polys.len(),
        forall|j: int| 0 <= j < polys.len() ==> (#[trigger] polys[j]).len() == len,
    ensures
        max_len(polys, count) == len,
    decreases count,
{
    assert(polys[count - 1].len() == len);
    if count > 1 {
        lemma_max_len_uniform(polys, (count - 1) as nat, len);
    } else {
        assert(max_len(polys, 0) == 0);
    }
}

/// Where every batch opens polynomials of `2^degree_bits` coefficients,
/// the combined quotients have one coefficient less.
pub proof fn lemma_combined_quotients_len(
    ctx: FieldContext,
    alpha: Seq<u64>,
    oracles: Seq<&PolynomialBatch>,
    instance: FriInstanceInfo,
    degree_bits: nat,
    rate_bits: nat,
    m: nat,
)
    requires
        oracles_over(ctx, oracles),
        instance.valid_for(ctx, oracles),
        uniform_instance(instance, oracles, degree_bits, rate_bits),
        1 <= m <= instance.batches.len(),
    ensures
        ctx.spec_combined_quotients(alpha, oracles, instance.batches@, m).len() == pow2(
            degree_bits,
        ) - 1,
    decreases m,
{
    let batch = instance.batches[m - 1];
    let opened = batch.opened(oracles);
    assert(batch.valid_for(ctx, oracles));
    assert forall|j: int| 0 <= j < opened.len() implies (#[trigger] opened[j]).len() == pow2(
        degree_bits,
    ) by {
        let info = batch.polynomials[j];
        let oracle = oracles[info.oracle_index as int];
        assert(oracle.wf());
        assert(oracle.polynomials[info.polynomial_index as int].coeffs.len() == pow2(
            oracle.degree_log as nat,
        ));
    }
    lemma_max_len_uniform(opened, opened.len(), pow2(degree_bits));
    lemma_pow2_pos(degree_bits);
    let before = ctx.spec_combined_quotients(alpha, oracles, instance.batches@, (m - 1) as nat);
    if m > 1 {
        lemma_combined_quotients_len(
            ctx,
            alpha,
            oracles,
            instance,
            degree_bits,
            rate_bits,
            (m - 1) as nat,
        );
    } else {
        assert(before.len() == 0);
    }
    let composition = ctx.spec_reduce_polys(alpha, opened);
    let quotient = ctx.spec_quotient(composition, batch.point@);
    assert(composition.len() == pow2(degree_bits));
    assert(quotient.len() == pow2(degree_bits) - 1);
    let scaled = ctx.spec_poly_scale(before, ctx.spec_ext_pow(alpha, opened.len()));
    assert(scaled.len() == before.len());
    assert(ctx.spec_combined_quotients(alpha, oracles, instance.batches@, m)
        == ctx.spec_poly_add(scaled, quotient));
}

impl PolynomialBatch {
    /// Produces a batch opening proof.
    ///
    /// The challenge `alpha` is drawn from the transcript. The polynomial
    /// that the low-degree test runs on is the sum of the quotients of all
    /// batches under `alpha`, times `X`, extended by the rate.
    #[verifier::rlimit(40)]
    pub fn prove_openings<H: Hasher>(
        ctx: &FieldContext,
        hasher: &H,
        instance: &FriInstanceInfo,
        oracles: &Vec<&PolynomialBatch>,
        challenger: &mut Challenger,
        fri_params: &FriParams,
    ) -> (r: Result<FriProof, FriError>)
        requires
            ctx.wf(),
            ctx.degree > 1,
            oracles_over(*ctx, oracles@),
            instance.valid_for(*ctx, oracles@),
            uniform_instance(
                *instance,
                oracles@,
                fri_params.degree_bits as nat,
                fri_params.config.rate_bits as nat,
            ),
            fri_params.fits((fri_params.degree_bits + fri_params.config.rate_bits) as nat),
        ensures
            match r {
                Ok(proof) => exists|commitment: FriCommitment|
                    is_fri_proof_of(
                        proof,
                        commitment,
                        hasher,
                        *ctx,
                        trees_of(oracles@),
                        spec_ext_lde(
                            *ctx,
                            seq![ctx.spec_ext_zero()] + ctx.spec_combined_quotients(
                                old(challenger).view().challenges(hasher, *ctx, ctx.degree as nat),
                                oracles@,
                                instance.batches@,
                                instance.batches.len() as nat,
                            ),
                            fri_params.config.rate_bits as nat,
                        ),
                        *fri_params,
                        old(challenger).view().after_challenges(hasher, ctx.degree as nat),
                    ) && final(challenger).view() == spec_final_view(
                        proof,
                        commitment,
                        hasher,
                        *ctx,
                        *fri_params,
                        old(challenger).view().after_challenges(hasher, ctx.degree as nat),
                    ),
                Err(e) => e == FriError::ProofOfWorkFailed && exists|commitment: FriCommitment|
                    pow_fails_for(
                        commitment,
                        hasher,
                        *ctx,
                        spec_ext_lde(
                            *ctx,
                            seq![ctx.spec_ext_zero()] + ctx.spec_combined_quotients(
                                old(challenger).view().challenges(hasher, *ctx, ctx.degree as nat),
                                oracles@,
                                instance.batches@,
                                instance.batches.len() as nat,
                            ),
                            fri_params.config.rate_bits as nat,
                        ),
                        *fri_params,
                        old(challenger).view().after_challenges(hasher, ctx.degree as nat),
                    ),
            },
            fri_params.config.proof_of_work_bits == 0 ==> r is Ok,
    {
        let ghost degree_bits = fri_params.degree_bits as nat;
        let ghost rate_bits = fri_params.config.rate_bits as nat;
        proof {
            // the first polynomial opened belongs to an oracle of the instance's shape
            let batch = instance.batches[0];
            assert(batch.valid_for(*ctx, oracles@));
            let info = batch.polynomials[0];
            let oracle = oracles[info.oracle_index as int];
            assert(oracle.wf());
            assert(oracle.lde_bits() == degree_bits + rate_bits);
        }
        let alpha = challenger.get_extension_challenge(hasher, ctx);
        let ghost base = alpha@;
        let final_poly = opening_polynomial(ctx, instance, oracles, alpha);
        proof {
            lemma_combined_quotients_len(
                *ctx,
                base,
                oracles@,
                *instance,
                degree_bits,
                rate_bits,
                instance.batches.len() as nat,
            );
            assert(deep(final_poly.coeffs@).len() == final_poly.coeffs.len());
            assert(final_poly.coeffs.len() == pow2(degree_bits));
            lemma_pow2_adds(degree_bits, rate_bits);
            lemma_pow2_is_pow2(degree_bits + rate_bits);
            lemma_log2_pow2(degree_bits + rate_bits);
        }
        let lde_final_poly = final_poly.lde(ctx, fri_params.config.rate_bits);
        proof {
            assert(deep(lde_final_poly.coeffs@) =~= spec_ext_lde(
                *ctx,
                deep(final_poly.coeffs@),
                rate_bits,
            ));
        }
        let mut trees: Vec<&MerkleTree> = Vec::new();
        let mut o: usize = 0;
        while o < oracles.len()
            invariant
                o <= oracles.len(),
                trees.len() == o,
                forall|t: int| 0 <= t < o ==> trees[t] == &oracles[t].merkle_tree,
            decreases oracles.len() - o,
        {
            trees.push(&oracles[o].merkle_tree);
            o = o + 1;
        }
        proof {
            assert(trees@ =~= trees_of(oracles@));
            assert forall|t: int| 0 <= t < trees.len() implies (#[trigger] trees[t]).shaped()
                && trees[t].leaves.len() == lde_final_poly.coeffs.len() by {
                assert(oracles[t].wf());
            }
        }
        fri_proof(ctx, hasher, &trees, lde_final_poly, challenger, fri_params)
    }
}

} // verus!
