//! The multiplication gate over multi-limb integers and its witness generator.

use crate::biguint::{biguint_digits, biguint_mul};
use crate::field::FieldContext;
use crate::limbs::{
    column_sum, columns_value, lemma_base_pow_positive, lemma_column_sum_bound,
    lemma_limbs_of_value, lemma_limbs_value_bound, lemma_pad_keeps_value,
    lemma_trim_keeps_value, lemma_trimmed_len_bound, lemma_value_of_limbs, limb_base, limb_of,
    limbs_of, limbs_value, pad_zeros, trim_zeros,
};
use crate::target::{Target, Wire};
use crate::vars::{
    flatten_ext, low_limbs, BigUintToVecField, EvaluationVars, EvaluationVarsBase,
    FieldExtToBigUint, FieldToBigUint,
};
use crate::witness::{GeneratedValues, PartitionWitness};
use core::ops::Range;
use num::BigUint;
use vstd::arithmetic::power::{lemma_pow1, lemma_pow_adds, pow};
use vstd::prelude::*;

verus! {

/// A gate that constrains the product of two multi-limb integers:
/// `output == multiplicand_0 * multiplicand_1` over the integers.
///
/// Its row holds the `num_limbs` limbs of each multiplicand and the
/// `2 * num_limbs` limbs of the output, one limb per wire.
#[derive(Clone, Copy, Debug, PartialEq, Eq, Structural)]
pub struct MulNonNativeGate {
    pub num_limbs: usize,
}

/// The constraints of a multiplication gate, limb by limb: the difference in the
/// field between each limb of the claimed output and the limb of the
/// product at the same position.
pub open spec fn spec_limb_differences(ctx: FieldContext, product: int, output: Seq<u32>) -> Seq<
    u64,
> {
    Seq::new(
        output.len(),
        |k: int| ctx.spec_sub(output[k] as u64, limb_of(product, k as nat) as u64),
    )
}

impl MulNonNativeGate {
    /// Whether this gate's wires can be numbered: four times the number of
    /// limbs fits a machine word.
    pub open spec fn wf(self) -> bool {
        self.num_limbs <= usize::MAX / 4
    }

    /// A gate for multiplicands of the given numbers of limbs.
    pub fn new(num_limbs: usize) -> (r: Self)
        ensures
            r.num_limbs == num_limbs,
    {
        MulNonNativeGate { num_limbs }
    }

    /// The wire of limb `i` of the first multiplicand.
    pub fn wire_ith_limb_of_multiplicand_0(&self, i: usize) -> (r: usize)
        requires
            i < self.num_limbs,
        ensures
            r == i,
    {
        i
    }

    /// The wire of limb `i` of the second multiplicand.
    pub fn wire_ith_limb_of_multiplicand_1(&self, i: usize) -> (r: usize)
        requires
            self.wf(),
            i < self.num_limbs,
        ensures
            r == self.num_limbs + i,
    {
        self.num_limbs + i
    }

    /// The wire of limb `i` of the output, which has twice as many limbs as
    /// a multiplicand.
    pub fn wire_ith_limb_of_output(&self, i: usize) -> (r: usize)
        requires
            self.wf(),
            i < 2 * self.num_limbs,
        ensures
            r == 2 * self.num_limbs + i,
    {
        2 * self.num_limbs + i
    }

    /// The wires of the first multiplicand.
    pub fn wires_multiplicand_0(&self) -> (r: Range<usize>)
        ensures
            r.start == 0,
            r.end == self.num_limbs,
    {
        0..self.num_limbs
    }

    /// The wires of the second multiplicand.
    pub fn wires_multiplicand_1(&self) -> (r: Range<usize>)
        requires
            self.wf(),
        ensures
            r.start == self.num_limbs,
            r.end == 2 * self.num_limbs,
    {
        self.num_limbs..self.num_limbs * 2
    }

    /// The wires of the output.
    pub fn wires_ouput(&self) -> (r: Range<usize>)
        requires
            self.wf(),
        ensures
            r.start == 2 * self.num_limbs,
            r.end == 4 * self.num_limbs,
    {
        self.num_limbs * 2..self.num_limbs * 4
    }

    /// The number of wires that one row of this gate takes.
    pub fn num_wires(&self) -> (r: usize)
        requires
            self.wf(),
        ensures
            r == 4 * self.num_limbs,
    {
        self.num_limbs * 4
    }

    /// The number of constants of a row: none.
    pub fn num_constants(&self) -> (r: usize)
        ensures
            r == 0,
    {
        0
    }

    /// The degree of the constraints in the wires.
    pub fn degree(&self) -> (r: usize)
        ensures
            r == 2,
    {
        2
    }

    /// The number of constraints over the base field: one per limb of the output.
    pub fn num_constraints(&self) -> (r: usize)
        requires
            self.wf(),
        ensures
            r == 2 * self.num_limbs,
    {
        self.num_limbs * 2
    }

    /// The generator that fills in this gate's output at `row`.
    pub fn generators(&self, row: usize) -> (r: Vec<MulNonNativeGenerator>)
        ensures
            r@ == seq![MulNonNativeGenerator { gate: *self, row }],
    {
        let mut r: Vec<MulNonNativeGenerator> = Vec::new();
        r.push(MulNonNativeGenerator { gate: *self, row });
        r
    }

    /// The constraints on a row over the base field: for each limb of the
    /// output, its difference from the same limb of the product of the
    /// multiplicands.
    pub fn eval_unfiltered_base_one(&self, ctx: &FieldContext, vars: &EvaluationVarsBase) -> (r:
        Vec<u64>)
        requires
            self.wf(),
            ctx.modulus > 0xffff_ffff,
            vars.local_wires.len() >= 4 * self.num_limbs,
        ensures
            r@ == spec_limb_differences(
                *ctx,
                limbs_value(low_limbs(vars.local_wires@.subrange(0, self.num_limbs as int)))
                    * limbs_value(
                    low_limbs(
                        vars.local_wires@.subrange(
                            self.num_limbs as int,
                            2 * self.num_limbs as int,
                        ),
                    ),
                ),
                low_limbs(
                    vars.local_wires@.subrange(2 * self.num_limbs as int, 4 * self.num_limbs as int),
                ),
            ),
    {
        let multiplicand_0 = vars.get_local_biguint(self.wires_multiplicand_0());
        let multiplicand_1 = vars.get_local_biguint(self.wires_multiplicand_1());
        let output = vars.get_local_biguint(self.wires_ouput());
        let n = self.num_limbs;
        let ghost m0 = low_limbs(vars.local_wires@.subrange(0, n as int));
        let ghost m1 = low_limbs(vars.local_wires@.subrange(n as int, 2 * n as int));
        let ghost out = low_limbs(vars.local_wires@.subrange(2 * n as int, 4 * n as int));
        proof {
            lemma_trim_keeps_value(m0);
            lemma_trim_keeps_value(m1);
            lemma_trim_keeps_value(out);
            lemma_product_fits(m0, m1);
            assert(pad_zeros(trim_zeros(out), (2 * n) as nat) =~= out);
        }
        limb_differences(ctx, &multiplicand_0, &multiplicand_1, &output, 2 * n)
    }

    /// The constraints on a row over the extension field: the limbs are the
    /// coordinates of the wires, and the differences come back grouped into
    /// extension elements.
    #[verifier::rlimit(40)]
    pub fn eval_unfiltered(&self, ctx: &FieldContext, vars: &EvaluationVars) -> (r: Vec<Vec<u64>>)
        requires
            self.wf(),
            ctx.modulus > 0xffff_ffff,
            ctx.degree >= 1,
            vars.local_wires.len() >= 4 * self.num_limbs,
            forall|i: int|
                0 <= i < vars.local_wires.len() ==> (#[trigger] vars.local_wires[i]).len()
                    == ctx.degree,
            4 * self.num_limbs * ctx.degree <= usize::MAX,
        ensures
            r.len() == 2 * self.num_limbs,
            forall|e: int| 0 <= e < r.len() ==> (#[trigger] r[e]).len() == ctx.degree,
            forall|e: int, j: int|
                0 <= e < r.len() && 0 <= j < ctx.degree ==> #[trigger] r[e][j]
                    == spec_limb_differences(
                    *ctx,
                    limbs_value(
                        low_limbs(
                            flatten_ext(
                                vars.spec_ext_wires().subrange(0, self.num_limbs as int),
                            ),
                        ),
                    ) * limbs_value(
                        low_limbs(
                            flatten_ext(
                                vars.spec_ext_wires().subrange(
                                    self.num_limbs as int,
                                    2 * self.num_limbs as int,
                                ),
                            ),
                        ),
                    ),
                    low_limbs(
                        flatten_ext(
                            vars.spec_ext_wires().subrange(
                                2 * self.num_limbs as int,
                                4 * self.num_limbs as int,
                            ),
                        ),
                    ),
                )[e * ctx.degree + j],
    {
        let multiplicand_0 = vars.get_local_biguint_algebra(self.wires_multiplicand_0());
        let multiplicand_1 = vars.get_local_biguint_algebra(self.wires_multiplicand_1());
        let output = vars.get_local_biguint_algebra(self.wires_ouput());
        let n = self.num_limbs;
        let d = ctx.degree;
        let ghost wires = vars.spec_ext_wires();
        let ghost m0 = low_limbs(flatten_ext(wires.subrange(0, n as int)));
        let ghost m1 = low_limbs(flatten_ext(wires.subrange(n as int, 2 * n as int)));
        let ghost out = low_limbs(flatten_ext(wires.subrange(2 * n as int, 4 * n as int)));
        proof {
            lemma_flatten_ext_len(wires.subrange(0, n as int), d as nat);
            lemma_flatten_ext_len(wires.subrange(n as int, 2 * n as int), d as nat);
            lemma_flatten_ext_len(wires.subrange(2 * n as int, 4 * n as int), d as nat);
            assert(2 * n * d + 2 * n * d == 4 * n * d) by (nonlinear_arith);
            assert(n * d + n * d == 2 * n * d) by (nonlinear_arith);
            assert(0 <= 2 * n * d <= 4 * n * d) by (nonlinear_arith)
                requires
                    n >= 0,
                    d >= 0,
            ;
            lemma_trim_keeps_value(m0);
            lemma_trim_keeps_value(m1);
            lemma_trim_keeps_value(out);
            lemma_product_fits(m0, m1);
            assert(pad_zeros(trim_zeros(out), (2 * n * d) as nat) =~= out);
        }
        let total = 2 * n * d;
        let flat = limb_differences(ctx, &multiplicand_0, &multiplicand_1, &output, total);
        let mut r: Vec<Vec<u64>> = Vec::new();
        let mut e: usize = 0;
        let count = 2 * n;
        while e < count
            invariant
                e <= count,
                count == 2 * n,
                d >= 1,
                flat.len() == 2 * n * d,
                r.len() == e,
                forall|t: int| 0 <= t < e ==> (#[trigger] r[t]).len() == d,
                forall|t: int, j: int|
                    0 <= t < e && 0 <= j < d ==> #[trigger] r[t][j] == flat[t * d + j],
            decreases count - e,
        {
            proof {
                assert(e * d + d <= 2 * n * d) by (nonlinear_arith)
                    requires
                        0 <= e < 2 * n,
                        d >= 1,
                ;
            }
            let mut chunk: Vec<u64> = Vec::new();
            let mut j: usize = 0;
            while j < d
                invariant
                    j <= d,
                    e * d + d <= flat.len(),
                    chunk.len() == j,
                    forall|k: int| 0 <= k < j ==> chunk[k] == flat[e * d + k],
                decreases d - j,
            {
                chunk.push(flat[e * d + j]);
                j = j + 1;
            }
            r.push(chunk);
            e = e + 1;
        }
        r
    }
}

/// The coordinates of `count` extension elements of `d` coordinates each are
/// `count * d` in number.
pub proof fn lemma_flatten_ext_len(elems: Seq<Seq<u64>>, d: nat)
    requires
        forall|i: int| 0 <= i < elems.len() ==> (#[trigger] elems[i]).len() == d,
    ensures
        flatten_ext(elems).len() == elems.len() * d,
    decreases elems.len(),
{
    if elems.len() > 0 {
        lemma_flatten_ext_len(elems.drop_last(), d);
        assert((elems.len() - 1) * d + d == elems.len() * d) by (nonlinear_arith);
    } else {
        assert(0 * d == 0);
    }
}

/// The limb-wise differences between the claimed output and the product of
/// two big integers, over `total` limbs.
fn limb_differences(
    ctx: &FieldContext,
    multiplicand_0: &BigUint,
    multiplicand_1: &BigUint,
    output: &BigUint,
    total: usize,
) -> (r: Vec<u64>)
    requires
        ctx.modulus > 0xffff_ffff,
        biguint_digits(*output).len() <= total,
        0 <= limbs_value(biguint_digits(*multiplicand_0)) * limbs_value(
            biguint_digits(*multiplicand_1),
        ) < pow(limb_base(), total as nat),
    ensures
        r@ == spec_limb_differences(
            *ctx,
            limbs_value(biguint_digits(*multiplicand_0)) * limbs_value(
                biguint_digits(*multiplicand_1),
            ),
            pad_zeros(biguint_digits(*output), total as nat),
        ),
{
    let computed_output = biguint_mul(multiplicand_0, multiplicand_1);
    let claimed = BigUintToVecField::to_basefield_array(output);
    let computed = BigUintToVecField::to_basefield_array(&computed_output);
    let ghost product = limbs_value(biguint_digits(computed_output));
    let ghost digits = biguint_digits(computed_output);
    let ghost padded = pad_zeros(digits, total as nat);
    proof {
        lemma_trimmed_len_bound(digits, total as nat);
        lemma_pad_keeps_value(digits, total as nat);
        lemma_limbs_of_value(padded);
    }
    let mut constraints: Vec<u64> = Vec::new();
    let mut k: usize = 0;
    while k < total
        invariant
            k <= total,
            ctx.modulus > 0xffff_ffff,
            claimed@ == crate::vars::widen(biguint_digits(*output)),
            computed@ == crate::vars::widen(digits),
            claimed.len() <= total,
            computed.len() <= total,
            padded == pad_zeros(digits, total as nat),
            limbs_of(product, total as nat) == padded,
            constraints.len() == k,
            forall|t: int|
                0 <= t < k ==> constraints[t] == ctx.spec_sub(
                    pad_zeros(biguint_digits(*output), total as nat)[t] as u64,
                    limb_of(product, t as nat) as u64,
                ),
        decreases total - k,
    {
        let a = if k < claimed.len() {
            claimed[k]
        } else {
            0
        };
        let b = if k < computed.len() {
            computed[k]
        } else {
            0
        };
        proof {
            assert(b == padded[k as int] as u64);
            assert(limbs_of(product, total as nat)[k as int] == limb_of(product, k as nat));
        }
        constraints.push(ctx.sub(a, b));
        k = k + 1;
    }
    proof {
        assert(constraints@ =~= spec_limb_differences(
            *ctx,
            product,
            pad_zeros(biguint_digits(*output), total as nat),
        ));
    }
    constraints
}

/// The constraints vanish exactly where the output is the product: for an
/// output of as many limbs as the product can need, every limb-wise
/// difference is zero if and only if the output stands for the product.
pub proof fn lemma_differences_vanish(ctx: FieldContext, product: int, output: Seq<u32>)
    requires
        ctx.modulus > 0xffff_ffff,
        0 <= product < pow(limb_base(), output.len()),
    ensures
        (forall|k: int|
            0 <= k < output.len() ==> #[trigger] spec_limb_differences(ctx, product, output)[k]
                == 0) <==> limbs_value(output) == product,
{
    let diffs = spec_limb_differences(ctx, product, output);
    let m = ctx.modulus as int;
    if limbs_value(output) == product {
        lemma_limbs_of_value(output);
        assert forall|k: int| 0 <= k < output.len() implies #[trigger] diffs[k] == 0 by {
            assert(limbs_of(product, output.len())[k] == output[k]);
            vstd::arithmetic::div_mod::lemma_small_mod(0, m as nat);
        }
    }
    if forall|k: int| 0 <= k < output.len() ==> #[trigger] diffs[k] == 0 {
        assert forall|k: int| 0 <= k < output.len() implies output[k] == limbs_of(
            product,
            output.len(),
        )[k] by {
            let a = output[k] as int;
            let b = limb_of(product, k as nat) as int;
            assert(diffs[k] == 0);
            if a >= b {
                vstd::arithmetic::div_mod::lemma_small_mod((a - b) as nat, m as nat);
            } else {
                vstd::arithmetic::div_mod::lemma_mod_multiples_vanish(1, a - b, m);
                vstd::arithmetic::div_mod::lemma_small_mod((a - b + m) as nat, m as nat);
            }
        }
        assert(output =~= limbs_of(product, output.len()));
        lemma_value_of_limbs(product, output.len());
        vstd::arithmetic::div_mod::lemma_small_mod(
            product as nat,
            pow(limb_base(), output.len()) as nat,
        );
    }
}

/// The limbs that the generator puts on the output wires satisfy every constraint.
pub proof fn lemma_generated_output_satisfies(ctx: FieldContext, product: int, len: nat, k: int)
    requires
        ctx.modulus > 0,
        0 <= k < len,
    ensures
        spec_limb_differences(ctx, product, limbs_of(product, len))[k] == 0,
{
    vstd::arithmetic::div_mod::lemma_small_mod(0, ctx.modulus as nat);
}

/// The witness generator of a multiplication gate: from the limbs of the
/// multiplicands on a row to the limbs of the output.
#[derive(Clone, Copy, Debug, PartialEq, Eq, Structural)]
pub struct MulNonNativeGenerator {
    pub gate: MulNonNativeGate,
    pub row: usize,
}

/// The wire of `row` at `column`.
pub open spec fn wire_at(row: usize, column: int) -> Target {
    Target::Wire(Wire { row, column: column as usize })
}

/// Whether the witness holds a value for each of the `count` wires of `row`
/// from column `start` on.
pub open spec fn witness_has(witness: PartitionWitness, row: usize, start: int, count: int) -> bool {
    forall|c: int|
        start <= c < start + count ==> (#[trigger] witness.spec_get(wire_at(row, c))).is_some()
}

/// The low 32 bits of the values that the witness holds for `count` wires
/// of `row` from column `start` on.
pub open spec fn witness_limbs(
    witness: PartitionWitness,
    row: usize,
    start: int,
    count: nat,
) -> Seq<u32> {
    Seq::new(
        count,
        |i: int| (witness.spec_get(wire_at(row, start + i))->0 % 0x1_0000_0000) as u32,
    )
}

impl MulNonNativeGenerator {
    /// The targets that must be known before the generator can run: the
    /// limbs of both multiplicands.
    pub fn dependencies(&self) -> (r: Vec<Target>)
        requires
            self.gate.wf(),
        ensures
            r.len() == 2 * self.gate.num_limbs,
            forall|i: int|
                0 <= i < r.len() ==> #[trigger] r[i] == Target::Wire(
                    Wire { row: self.row, column: i as usize },
                ),
    {
        let num_limbs = self.gate.num_limbs;
        let mut m0: Vec<Target> = Vec::new();
        let mut i: usize = 0;
        while i < num_limbs
            invariant
                i <= num_limbs,
                num_limbs == self.gate.num_limbs,
                self.gate.wf(),
                m0.len() == i,
                forall|t: int|
                    0 <= t < i ==> #[trigger] m0[t] == Target::Wire(
                        Wire { row: self.row, column: t as usize },
                    ),
            decreases num_limbs - i,
        {
            m0.push(Target::wire(self.row, self.gate.wire_ith_limb_of_multiplicand_0(i)));
            i = i + 1;
        }
        let mut j: usize = 0;
        while j < num_limbs
            invariant
                j <= num_limbs,
                num_limbs == self.gate.num_limbs,
                self.gate.wf(),
                m0.len() == num_limbs + j,
                forall|t: int|
                    0 <= t < m0.len() ==> #[trigger] m0[t] == Target::Wire(
                        Wire { row: self.row, column: t as usize },
                    ),
            decreases num_limbs - j,
        {
            m0.push(Target::wire(self.row, self.gate.wire_ith_limb_of_multiplicand_1(j)));
            j = j + 1;
        }
        m0
    }

    /// Computes the limbs of the product of the multiplicands that the
    /// witness holds on the generator's row, and records them on the output wires.
    pub fn run_once(&self, witness: &PartitionWitness, out_buffer: &mut GeneratedValues)
        requires
            self.gate.wf(),
            witness_has(*witness, self.row, 0, 2 * self.gate.num_limbs),
        ensures
            generated_product(
                *witness,
                self.row,
                self.gate.num_limbs as nat,
                self.gate.num_limbs as nat,
                old(out_buffer).target_values@,
                final(out_buffer).target_values@,
            ),
    {
        run_multiplication(witness, self.row, self.gate.num_limbs, self.gate.num_limbs, out_buffer);
    }
}

/// Whether `after` is `before` followed by the limbs of the product of the
/// multiplicands of `n0` and `n1` limbs that the witness holds on `row`,
/// each on its output wire.
pub open spec fn generated_product(
    witness: PartitionWitness,
    row: usize,
    n0: nat,
    n1: nat,
    before: Seq<(Target, u64)>,
    after: Seq<(Target, u64)>,
) -> bool {
    &&& after.len() == before.len() + n0 + n1
    &&& forall|i: int| 0 <= i < before.len() ==> after[i] == before[i]
    &&& forall|i: int|
        0 <= i < n0 + n1 ==> #[trigger] after[before.len() + i] == (
            wire_at(row, n0 + n1 + i),
            limb_of(
                limbs_value(witness_limbs(witness, row, 0, n0)) * limbs_value(
                    witness_limbs(witness, row, n0 as int, n1),
                ),
                i as nat,
            ) as u64,
        )
}

/// A gate that constrains the product of two big integers of any numbers
/// of limbs. Its row holds the limbs of the first multiplicand, those of
/// the second, and then the limbs of the output, as many as both
/// multiplicands have together.
#[derive(Clone, Copy, Debug, PartialEq, Eq, Structural)]
pub struct MulBigUintGate {
    pub num_limbs_0: usize,
    pub num_limbs_1: usize,
}

impl MulBigUintGate {
    /// Whether this gate's wires can be numbered.
    pub open spec fn wf(self) -> bool {
        self.num_limbs_0 + self.num_limbs_1 <= usize::MAX / 2
    }

    /// A gate for multiplicands of the given numbers of limbs.
    pub fn new(num_limbs_0: usize, num_limbs_1: usize) -> (r: Self)
        ensures
            r.num_limbs_0 == num_limbs_0,
            r.num_limbs_1 == num_limbs_1,
    {
        MulBigUintGate { num_limbs_0, num_limbs_1 }
    }

    /// The wires of the first multiplicand.
    pub fn wires_multiplicand_0(&self) -> (r: Range<usize>)
        ensures
            r.start == 0,
            r.end == self.num_limbs_0,
    {
        0..self.num_limbs_0
    }

    /// The wires of the second multiplicand.
    pub fn wires_multiplicand_1(&self) -> (r: Range<usize>)
        requires
            self.wf(),
        ensures
            r.start == self.num_limbs_0,
            r.end == self.num_limbs_0 + self.num_limbs_1,
    {
        self.num_limbs_0..self.num_limbs_0 + self.num_limbs_1
    }

    /// The wires of the output.
    pub fn wires_output(&self) -> (r: Range<usize>)
        requires
            self.wf(),
        ensures
            r.start == self.num_limbs_0 + self.num_limbs_1,
            r.end == 2 * (self.num_limbs_0 + self.num_limbs_1),
    {
        let total = self.num_limbs_0 + self.num_limbs_1;
        total..total * 2
    }

    /// The number of wires that one row of this gate takes.
    pub fn num_wires(&self) -> (r: usize)
        requires
            self.wf(),
        ensures
            r == 2 * (self.num_limbs_0 + self.num_limbs_1),
    {
        (self.num_limbs_0 + self.num_limbs_1) * 2
    }

    /// Computes the limbs of the product of the multiplicands that the
    /// witness holds on `row`, and records them on the output wires.
    pub fn run_once(&self, row: usize, witness: &PartitionWitness, out_buffer: &mut GeneratedValues)
        requires
            self.wf(),
            witness_has(*witness, row, 0, self.num_limbs_0 + self.num_limbs_1),
        ensures
            generated_product(
                *witness,
                row,
                self.num_limbs_0 as nat,
                self.num_limbs_1 as nat,
                old(out_buffer).target_values@,
                final(out_buffer).target_values@,
            ),
    {
        run_multiplication(witness, row, self.num_limbs_0, self.num_limbs_1, out_buffer);
    }
}

/// A gate placed on a row of a circuit.
#[derive(Clone, Copy, Debug, PartialEq, Eq, Structural)]
pub enum GateInstance {
    MulNonNative(MulNonNativeGate),
    MulBigUint(MulBigUintGate),
}

/// Reads `count` limbs from the wires of `row` from column `start` on.
fn read_limbs(witness: &PartitionWitness, row: usize, start: usize, count: usize) -> (r: Vec<u32>)
    requires
        start + count <= usize::MAX,
        witness_has(*witness, row, start as int, count as int),
    ensures
        r@ == witness_limbs(*witness, row, start as int, count as nat),
{
    let mut r: Vec<u32> = Vec::new();
    let mut i: usize = 0;
    while i < count
        invariant
            i <= count,
            start + count <= usize::MAX,
            witness_has(*witness, row, start as int, count as int),
            r.len() == i,
            forall|t: int|
                0 <= t < i ==> r[t] == witness_limbs(*witness, row, start as int, count as nat)[t],
        decreases count - i,
    {
        assert(witness.spec_get(wire_at(row, start + i)).is_some());
        let value = witness.get_target(Target::wire(row, start + i));
        r.push((value % 0x1_0000_0000) as u32);
        i = i + 1;
    }
    proof {
        assert(r@ =~= witness_limbs(*witness, row, start as int, count as nat));
    }
    r
}

/// Multiplies the multiplicands of `n0` and `n1` limbs that the witness
/// holds at the start of `row`, and records the limbs of the product on
/// the wires after them.
fn run_multiplication(
    witness: &PartitionWitness,
    row: usize,
    n0: usize,
    n1: usize,
    out_buffer: &mut GeneratedValues,
)
    requires
        n0 + n1 <= usize::MAX / 2,
        witness_has(*witness, row, 0, n0 + n1),
    ensures
        generated_product(
            *witness,
            row,
            n0 as nat,
            n1 as nat,
            old(out_buffer).target_values@,
            final(out_buffer).target_values@,
        ),
{
    let m0 = read_limbs(witness, row, 0, n0);
    let m1 = read_limbs(witness, row, n0, n1);
    let limb_values = multiply_limbs(&m0, &m1);
    let ghost product = limbs_value(m0@) * limbs_value(m1@);
    let ghost start = out_buffer.target_values@;
    proof {
        lemma_limbs_of_value(limb_values@);
    }
    let total_limbs = n0 + n1;
    let mut i: usize = 0;
    while i < total_limbs
        invariant
            i <= total_limbs,
            total_limbs == n0 + n1,
            total_limbs <= usize::MAX / 2,
            limb_values.len() == total_limbs,
            limbs_of(product, total_limbs as nat) == limb_values@,
            out_buffer.target_values.len() == start.len() + i,
            forall|t: int| 0 <= t < start.len() ==> out_buffer.target_values[t] == start[t],
            forall|t: int|
                0 <= t < i ==> #[trigger] out_buffer.target_values[start.len() + t] == (
                    wire_at(row, total_limbs + t),
                    limb_of(product, t as nat) as u64,
                ),
        decreases total_limbs - i,
    {
        let target = Target::wire(row, total_limbs + i);
        proof {
            assert(limbs_of(product, total_limbs as nat)[i as int] == limb_of(product, i as nat));
        }
        out_buffer.set_target(target, limb_values[i] as u64);
        i = i + 1;
    }
}

/// Where a column-wise sum of the partial products leaves limbs and a
/// carry out of the top limb, the carry is zero and the limbs stand for the
/// product.
pub proof fn lemma_top_carry_is_zero(m0: Seq<u32>, m1: Seq<u32>, limbs: Seq<u32>, carry: int)
    requires
        limbs.len() == m0.len() + m1.len(),
        carry >= 0,
        limbs_value(limbs) + carry * pow(limb_base(), limbs.len()) == limbs_value(m0)
            * limbs_value(m1),
    ensures
        carry == 0,
        limbs_value(limbs) == limbs_value(m0) * limbs_value(m1),
{
    lemma_product_fits(m0, m1);
    lemma_limbs_value_bound(limbs);
    let top = pow(limb_base(), limbs.len());
    lemma_base_pow_positive(limbs.len());
    assert(carry == 0 && carry * top == 0) by (nonlinear_arith)
        requires
            carry >= 0,
            top > 0,
            carry * top < top,
    ;
}

/// The product of two limbs, as a low limb and a carry.
pub fn mul_u32(a: u32, b: u32) -> (r: (u32, u32))
    ensures
        r.0 + r.1 * limb_base() == a * b,
{
    proof {
        assert(a * b <= 0xffff_ffff * 0xffff_ffff) by (nonlinear_arith)
            requires
                0 <= a <= 0xffff_ffff,
                0 <= b <= 0xffff_ffff,
        ;
    }
    let product: u64 = (a as u64) * (b as u64);
    let carry: u64 = product >> 32;
    let low: u64 = product & 0xffff_ffffu64;
    proof {
        assert(carry == product / 0x1_0000_0000 && low == product % 0x1_0000_0000) by (bit_vector)
            requires
                carry == product >> 32,
                low == product & 0xffff_ffffu64,
        ;
    }
    (low as u32, carry as u32)
}

/// The sum of two limbs, as a low limb and a carry.
pub fn add_u32(a: u32, b: u32) -> (r: (u32, u32))
    ensures
        r.0 + r.1 * limb_base() == a + b,
{
    let sum: u64 = (a as u64) + (b as u64);
    let carry: u64 = sum >> 32;
    let low: u64 = sum & 0xffff_ffffu64;
    proof {
        assert(carry == sum / 0x1_0000_0000 && low == sum % 0x1_0000_0000) by (bit_vector)
            requires
                carry == sum >> 32,
                low == sum & 0xffff_ffffu64,
        ;
    }
    (low as u32, carry as u32)
}

/// The sum of one column and the carry that reached it, as a low limb and the
/// carry that leaves it.
pub fn add_u32s_with_carry(to_add: &Vec<u32>, carry: u128) -> (r: (u32, u128))
    requires
        carry < 0x2_0000_0000_0000_0000,
    ensures
        r.0 + r.1 * limb_base() == column_sum(to_add@) + carry,
        r.1 < 0x2_0000_0000_0000_0000,
{
    let mut sum: u128 = carry;
    let mut k: usize = 0;
    while k < to_add.len()
        invariant
            k <= to_add.len(),
            sum == column_sum(to_add@.take(k as int)) + carry,
            carry < 0x2_0000_0000_0000_0000,
        decreases to_add.len() - k,
    {
        proof {
            lemma_column_sum_bound(to_add@.take(k as int));
            assert(to_add@.take(k + 1).drop_last() == to_add@.take(k as int));
        }
        sum = sum + to_add[k] as u128;
        k = k + 1;
    }
    proof {
        assert(to_add@.take(k as int) == to_add@);
        lemma_column_sum_bound(to_add@);
    }
    let out: u128 = sum >> 32;
    let low: u128 = sum & 0xffff_ffffu128;
    proof {
        assert(out == sum / 0x1_0000_0000 && low == sum % 0x1_0000_0000) by (bit_vector)
            requires
                out == sum >> 32,
                low == sum & 0xffff_ffffu128,
        ;
    }
    (low as u32, out)
}

/// Appending `x` to column `k` adds `x * 2^(32k)` to what the columns stand for.
proof fn lemma_columns_push(before: Seq<Vec<u32>>, after: Seq<Vec<u32>>, k: int, x: u32)
    requires
        before.len() == after.len(),
        0 <= k < before.len(),
        after[k]@ == before[k]@.push(x),
        forall|j: int| 0 <= j < before.len() && j != k ==> after[j]@ == before[j]@,
    ensures
        columns_value(after) == columns_value(before) + x * pow(limb_base(), k as nat),
    decreases before.len(),
{
    let last = before.len() - 1;
    if k == last {
        assert(after[k]@.drop_last() == before[k]@);
        lemma_columns_same(before.drop_last(), after.drop_last());
        let p = pow(limb_base(), k as nat);
        let s = column_sum(before[k]@) as int;
        assert((s + x) * p == s * p + x * p) by (nonlinear_arith);
    } else {
        lemma_columns_push(before.drop_last(), after.drop_last(), k, x);
    }
}

/// Columns with the same contents stand for the same integer.
proof fn lemma_columns_same(a: Seq<Vec<u32>>, b: Seq<Vec<u32>>)
    requires
        a.len() == b.len(),
        forall|j: int| 0 <= j < a.len() ==> a[j]@ == b[j]@,
    ensures
        columns_value(a) == columns_value(b),
    decreases a.len(),
{
    if a.len() > 0 {
        lemma_columns_same(a.drop_last(), b.drop_last());
    }
}

/// Empty columns stand for zero.
proof fn lemma_columns_empty(columns: Seq<Vec<u32>>)
    requires
        forall|j: int| 0 <= j < columns.len() ==> columns[j]@.len() == 0,
    ensures
        columns_value(columns) == 0,
    decreases columns.len(),
{
    if columns.len() > 0 {
        lemma_columns_empty(columns.drop_last());
        assert(column_sum(columns.last()@) * pow(limb_base(), (columns.len() - 1) as nat) == 0)
            by (nonlinear_arith)
            requires
                column_sum(columns.last()@) == 0,
        ;
    }
}

/// The partial products of schoolbook multiplication, sorted into columns:
/// the low half of `m0[i] * m1[j]` lands in column `i + j`, its high half in
/// column `i + j + 1`.
#[verifier::rlimit(40)]
pub fn partial_product_columns(m0: &Vec<u32>, m1: &Vec<u32>) -> (columns: Vec<Vec<u32>>)
    requires
        m0.len() + m1.len() <= usize::MAX,
    ensures
        columns.len() == m0.len() + m1.len(),
        columns_value(columns@) == limbs_value(m0@) * limbs_value(m1@),
{
    let n0 = m0.len();
    let n1 = m1.len();
    let total_limbs = n0 + n1;
    let mut to_add: Vec<Vec<u32>> = Vec::new();
    let mut k: usize = 0;
    while k < total_limbs
        invariant
            k <= total_limbs,
            to_add.len() == k,
            forall|j: int| 0 <= j < k ==> to_add[j]@.len() == 0,
        decreases total_limbs - k,
    {
        to_add.push(Vec::new());
        k = k + 1;
    }
    let ghost v1 = limbs_value(m1@);
    proof {
        lemma_columns_empty(to_add@);
        assert(m0@.take(0).len() == 0);
        assert(limbs_value(m0@.take(0)) * v1 == 0) by (nonlinear_arith)
            requires
                limbs_value(m0@.take(0)) == 0,
        ;
    }
    let mut i: usize = 0;
    while i < n0
        invariant
            i <= n0,
            n0 == m0.len(),
            n1 == m1.len(),
            total_limbs == n0 + n1,
            to_add.len() == total_limbs,
            v1 == limbs_value(m1@),
            columns_value(to_add@) == limbs_value(m0@.take(i as int)) * v1,
        decreases n0 - i,
    {
        let a = m0[i];
        let ghost head = limbs_value(m0@.take(i as int));
        let ghost pi = pow(limb_base(), i as nat);
        let mut j: usize = 0;
        proof {
            assert(m1@.take(0).len() == 0);
            assert(a * pi * limbs_value(m1@.take(0)) == 0) by (nonlinear_arith)
                requires
                    limbs_value(m1@.take(0)) == 0,
            ;
        }
        while j < n1
            invariant
                j <= n1,
                i < n0,
                n0 == m0.len(),
                n1 == m1.len(),
                total_limbs == n0 + n1,
                to_add.len() == total_limbs,
                a == m0[i as int],
                head == limbs_value(m0@.take(i as int)),
                pi == pow(limb_base(), i as nat),
                v1 == limbs_value(m1@),
                columns_value(to_add@) == head * v1 + a * pi * limbs_value(m1@.take(j as int)),
            decreases n1 - j,
        {
            let b = m1[j];
            let (product, carry) = mul_u32(a, b);
            let ghost before = to_add@;
            to_add[i + j].push(product);
            let ghost middle = to_add@;
            to_add[i + j + 1].push(carry);
            proof {
                lemma_columns_push(before, middle, (i + j) as int, product);
                lemma_columns_push(middle, to_add@, (i + j + 1) as int, carry);
                let pj = pow(limb_base(), j as nat);
                let pij = pow(limb_base(), (i + j) as nat);
                lemma_pow_adds(limb_base(), i as nat, j as nat);
                lemma_pow_adds(limb_base(), (i + j) as nat, 1);
                lemma_pow1(limb_base());
                let w = limbs_value(m1@.take(j as int));
                assert(m1@.take(j + 1).drop_last() == m1@.take(j as int));
                assert(limbs_value(m1@.take(j + 1)) == w + b * pj);
                let lo = product as int;
                let hi = carry as int;
                let base = limb_base();
                assert(lo * pij + hi * (pij * base) == (a * b) * (pi * pj)) by (nonlinear_arith)
                    requires
                        lo + hi * base == a * b,
                        pij == pi * pj,
                ;
                assert(a * pi * (w + b * pj) == a * pi * w + (a * b) * (pi * pj))
                    by (nonlinear_arith);
            }
            j = j + 1;
        }
        proof {
            assert(m1@.take(n1 as int) == m1@);
            assert(m0@.take(i + 1).drop_last() == m0@.take(i as int));
            assert(limbs_value(m0@.take(i + 1)) == head + a * pi);
            assert((head + a * pi) * v1 == head * v1 + a * pi * v1) by (nonlinear_arith);
        }
        i = i + 1;
    }
    proof {
        assert(m0@.take(n0 as int) == m0@);
    }
    to_add
}

/// Adds the columns up from the least significant one, handing each
/// column's overflow to the next. What leaves the last column is returned
/// beside the limbs.
pub fn propagate_carries(columns: &Vec<Vec<u32>>) -> (r: (Vec<u32>, u128))
    ensures
        r.0.len() == columns.len(),
        limbs_value(r.0@) + r.1 * pow(limb_base(), columns.len() as nat) == columns_value(
            columns@,
        ),
{
    let mut limb_values: Vec<u32> = Vec::new();
    let mut carry: u128 = 0;
    let mut k: usize = 0;
    proof {
        assert(columns@.take(0).len() == 0);
        assert(0 * pow(limb_base(), 0) == 0) by (nonlinear_arith);
    }
    while k < columns.len()
        invariant
            k <= columns.len(),
            limb_values.len() == k,
            carry < 0x2_0000_0000_0000_0000,
            limbs_value(limb_values@) + carry * pow(limb_base(), k as nat) == columns_value(
                columns@.take(k as int),
            ),
        decreases columns.len() - k,
    {
        let ghost old_limbs = limb_values@;
        let ghost old_carry = carry as int;
        let (new_product, new_carry) = add_u32s_with_carry(&columns[k], carry);
        limb_values.push(new_product);
        carry = new_carry;
        proof {
            let pk = pow(limb_base(), k as nat);
            let base = limb_base();
            lemma_pow_adds(limb_base(), k as nat, 1);
            lemma_pow1(limb_base());
            assert(limb_values@.drop_last() == old_limbs);
            assert(columns@.take(k + 1).drop_last() == columns@.take(k as int));
            let s = column_sum(columns[k as int]@) as int;
            let lo = new_product as int;
            let hi = new_carry as int;
            assert(lo * pk + hi * (pk * base) == s * pk + old_carry * pk) by (nonlinear_arith)
                requires
                    lo + hi * base == s + old_carry,
            ;
        }
        k = k + 1;
    }
    proof {
        assert(columns@.take(k as int) == columns@);
    }
    (limb_values, carry)
}

/// The product of two multi-limb integers by schoolbook multiplication.
///
/// The result has as many limbs as both factors together, and nothing is
/// carried out of its top limb.
pub fn multiply_limbs(m0: &Vec<u32>, m1: &Vec<u32>) -> (limb_values: Vec<u32>)
    requires
        m0.len() + m1.len() <= usize::MAX,
    ensures
        limb_values.len() == m0.len() + m1.len(),
        limbs_value(limb_values@) == limbs_value(m0@) * limbs_value(m1@),
{
    let to_add = partial_product_columns(m0, m1);
    let (limb_values, carry) = propagate_carries(&to_add);
    proof {
        lemma_top_carry_is_zero(m0@, m1@, limb_values@, carry as int);
    }
    limb_values
}

/// The product of an `a`-limb and a `b`-limb integer fits in `a + b` limbs.
pub proof fn lemma_product_fits(m0: Seq<u32>, m1: Seq<u32>)
    ensures
        0 <= limbs_value(m0) * limbs_value(m1) < pow(limb_base(), m0.len() + m1.len()),
{
    lemma_limbs_value_bound(m0);
    lemma_limbs_value_bound(m1);
    lemma_pow_adds(limb_base(), m0.len(), m1.len());
    let bound0 = pow(limb_base(), m0.len());
    let bound1 = pow(limb_base(), m1.len());
    let v0 = limbs_value(m0);
    let v1 = limbs_value(m1);
    assert(0 <= v0 * v1 < bound0 * bound1) by (nonlinear_arith)
        requires
            0 <= v0 < bound0,
            0 <= v1 < bound1,
    ;
}

} // verus!
