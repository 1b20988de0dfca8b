//! Accumulators that fold the constraints of a table into one random linear
//! combination per challenge.

use crate::circuit_builder::CircuitBuilder;
use crate::extension::deep;
use crate::field::FieldContext;
use crate::nonnative_target::NonnativeTarget;
use crate::target::Target;
use vstd::prelude::*;

verus! {

impl FieldContext {
    /// Every accumulator after one more constraint: `acc * alpha + c`, each
    /// with its own challenge `alpha` of the base field.
    pub open spec fn spec_accumulate(
        self,
        alphas: Seq<u64>,
        accs: Seq<Seq<u64>>,
        c: Seq<u64>,
    ) -> Seq<Seq<u64>> {
        Seq::new(
            accs.len(),
            |i: int| self.spec_ext_add(self.spec_ext_scale(accs[i], alphas[i]), c),
        )
    }
}

/// The accumulators of the constraints of one row, with the factors that
/// confine a constraint to some rows.
#[derive(Debug)]
pub struct ConstraintConsumer {
    /// The challenges of the random linear combinations.
    pub alphas: Vec<u64>,
    /// One running combination per challenge.
    pub constraint_accs: Vec<Vec<u64>>,
    /// The value at the row's point of the polynomial that vanishes on the last row.
    pub z_last: Vec<u64>,
    /// The value at the row's point of the polynomial that is one on the
    /// first row and zero on the others.
    pub lagrange_basis_first: Vec<u64>,
    /// The value at the row's point of the polynomial that is one on the
    /// last row and zero on the others.
    pub lagrange_basis_last: Vec<u64>,
}

impl ConstraintConsumer {
    /// The consumer's invariant: as many accumulators as challenges, and
    /// every value in its field.
    pub open spec fn wf(self, ctx: FieldContext) -> bool {
        &&& self.alphas.len() == self.constraint_accs.len()
        &&& ctx.all_elems(self.alphas@)
        &&& ctx.all_ext(deep(self.constraint_accs@))
        &&& ctx.is_ext(self.z_last@)
        &&& ctx.is_ext(self.lagrange_basis_first@)
        &&& ctx.is_ext(self.lagrange_basis_last@)
    }

    /// A consumer with all accumulators at zero.
    pub fn new(
        ctx: &FieldContext,
        alphas: Vec<u64>,
        z_last: Vec<u64>,
        lagrange_basis_first: Vec<u64>,
        lagrange_basis_last: Vec<u64>,
    ) -> (r: Self)
        requires
            ctx.modulus > 1,
            ctx.all_elems(alphas@),
            ctx.is_ext(z_last@),
            ctx.is_ext(lagrange_basis_first@),
            ctx.is_ext(lagrange_basis_last@),
        ensures
            r.wf(*ctx),
            r.alphas == alphas,
            r.z_last == z_last,
            r.lagrange_basis_first == lagrange_basis_first,
            r.lagrange_basis_last == lagrange_basis_last,
            forall|i: int|
                0 <= i < r.constraint_accs.len() ==> (#[trigger] r.constraint_accs[i])@
                    == ctx.spec_ext_zero(),
    {
        let mut constraint_accs: Vec<Vec<u64>> = Vec::new();
        let mut i: usize = 0;
        while i < alphas.len()
            invariant
                i <= alphas.len(),
                ctx.modulus > 1,
                constraint_accs.len() == i,
                forall|t: int|
                    0 <= t < i ==> (#[trigger] constraint_accs[t])@ == ctx.spec_ext_zero(),
            decreases alphas.len() - i,
        {
            constraint_accs.push(ctx.ext_zero());
            i = i + 1;
        }
        proof {
            assert forall|t: int| 0 <= t < constraint_accs.len() implies ctx.is_ext(
                #[trigger] deep(constraint_accs@)[t],
            ) by {
                assert(constraint_accs[t]@ == ctx.spec_ext_zero());
            }
        }
        ConstraintConsumer {
            alphas,
            constraint_accs,
            z_last,
            lagrange_basis_first,
            lagrange_basis_last,
        }
    }

    /// Adds one constraint as it stands: valid on all rows, the last wrapping
    /// around to the first.
    pub fn constraint_wrapping(&mut self, ctx: &FieldContext, constraint: &Vec<u64>)
        requires
            ctx.modulus > 0,
            old(self).wf(*ctx),
            ctx.is_ext(constraint@),
        ensures
            final(self).wf(*ctx),
            final(self).alphas == old(self).alphas,
            final(self).z_last == old(self).z_last,
            final(self).lagrange_basis_first == old(self).lagrange_basis_first,
            final(self).lagrange_basis_last == old(self).lagrange_basis_last,
            deep(final(self).constraint_accs@) == ctx.spec_accumulate(
                old(self).alphas@,
                deep(old(self).constraint_accs@),
                constraint@,
            ),
    {
        let ghost before = deep(self.constraint_accs@);
        let n = self.constraint_accs.len();
        let mut i: usize = 0;
        while i < n
            invariant
                i <= n,
                ctx.modulus > 0,
                n == self.constraint_accs.len(),
                n == self.alphas.len(),
                n == before.len(),
                ctx.all_elems(self.alphas@),
                ctx.all_ext(before),
                ctx.is_ext(constraint@),
                self.alphas == old(self).alphas,
                self.z_last == old(self).z_last,
                self.lagrange_basis_first == old(self).lagrange_basis_first,
                self.lagrange_basis_last == old(self).lagrange_basis_last,
                forall|t: int| i <= t < n ==> (#[trigger] self.constraint_accs[t])@ == before[t],
                forall|t: int|
                    0 <= t < i ==> (#[trigger] self.constraint_accs[t])@ == ctx.spec_ext_add(
                        ctx.spec_ext_scale(before[t], self.alphas[t]),
                        constraint@,
                    ),
            decreases n - i,
        {
            assert(ctx.is_ext(before[i as int]));
            let scaled = ctx.ext_scale(&self.constraint_accs[i], self.alphas[i]);
            let next = ctx.ext_add(&scaled, constraint);
            self.constraint_accs[i] = next;
            i = i + 1;
        }
        proof {
            assert(deep(self.constraint_accs@) =~= ctx.spec_accumulate(
                self.alphas@,
                before,
                constraint@,
            ));
            assert forall|t: int| 0 <= t < n implies ctx.is_ext(
                #[trigger] deep(self.constraint_accs@)[t],
            ) by {
                assert(self.constraint_accs[t]@ == ctx.spec_ext_add(
                    ctx.spec_ext_scale(before[t], self.alphas[t]),
                    constraint@,
                ));
            }
        }
    }

    /// Adds one constraint valid on all rows except the last.
    pub fn constraint(&mut self, ctx: &FieldContext, constraint: &Vec<u64>)
        requires
            ctx.modulus > 0,
            ctx.is_elem(ctx.w),
            old(self).wf(*ctx),
            ctx.is_ext(constraint@),
        ensures
            final(self).wf(*ctx),
            final(self).alphas == old(self).alphas,
            final(self).z_last == old(self).z_last,
            final(self).lagrange_basis_first == old(self).lagrange_basis_first,
            final(self).lagrange_basis_last == old(self).lagrange_basis_last,
            deep(final(self).constraint_accs@) == ctx.spec_accumulate(
                old(self).alphas@,
                deep(old(self).constraint_accs@),
                ctx.spec_ext_mul(constraint@, old(self).z_last@),
            ),
    {
        let weighted = ctx.ext_mul(constraint, &self.z_last);
        self.constraint_wrapping(ctx, &weighted);
    }

    /// Adds one constraint valid on the first row only.
    pub fn constraint_first_row(&mut self, ctx: &FieldContext, constraint: &Vec<u64>)
        requires
            ctx.modulus > 0,
            ctx.is_elem(ctx.w),
            old(self).wf(*ctx),
            ctx.is_ext(constraint@),
        ensures
            final(self).wf(*ctx),
            final(self).alphas == old(self).alphas,
            final(self).z_last == old(self).z_last,
            final(self).lagrange_basis_first == old(self).lagrange_basis_first,
            final(self).lagrange_basis_last == old(self).lagrange_basis_last,
            deep(final(self).constraint_accs@) == ctx.spec_accumulate(
                old(self).alphas@,
                deep(old(self).constraint_accs@),
                ctx.spec_ext_mul(constraint@, old(self).lagrange_basis_first@),
            ),
    {
        let weighted = ctx.ext_mul(constraint, &self.lagrange_basis_first);
        self.constraint_wrapping(ctx, &weighted);
    }

    /// Adds one constraint valid on the last row only.
    pub fn constraint_last_row(&mut self, ctx: &FieldContext, constraint: &Vec<u64>)
        requires
            ctx.modulus > 0,
            ctx.is_elem(ctx.w),
            old(self).wf(*ctx),
            ctx.is_ext(constraint@),
        ensures
            final(self).wf(*ctx),
            final(self).alphas == old(self).alphas,
            final(self).z_last == old(self).z_last,
            final(self).lagrange_basis_first == old(self).lagrange_basis_first,
            final(self).lagrange_basis_last == old(self).lagrange_basis_last,
            deep(final(self).constraint_accs@) == ctx.spec_accumulate(
                old(self).alphas@,
                deep(old(self).constraint_accs@),
                ctx.spec_ext_mul(constraint@, old(self).lagrange_basis_last@),
            ),
    {
        let weighted = ctx.ext_mul(constraint, &self.lagrange_basis_last);
        self.constraint_wrapping(ctx, &weighted);
    }
}

/// The accumulators of the constraints of one row inside a circuit.
#[derive(Debug)]
pub struct RecursiveConstraintConsumer {
    pub alphas: Vec<Target>,
    pub constraint_accs: Vec<NonnativeTarget>,
    pub z_last: NonnativeTarget,
    pub lagrange_basis_first: NonnativeTarget,
    pub lagrange_basis_last: NonnativeTarget,
}

/// The values of several extension targets.
pub open spec fn nonnative_values(
    builder: CircuitBuilder,
    wires: Map<Target, u64>,
    targets: Seq<NonnativeTarget>,
) -> Seq<Seq<u64>> {
    Seq::new(targets.len(), |i: int| builder.nonnative_value(wires, targets[i]))
}

impl RecursiveConstraintConsumer {
    /// The consumer's invariant: as many accumulators as challenges, all of
    /// them targets that the builder defines, of the extension's degree.
    pub open spec fn wf(self, builder: CircuitBuilder) -> bool {
        &&& self.alphas.len() == self.constraint_accs.len()
        &&& forall|i: int| 0 <= i < self.alphas.len() ==> builder.defines(#[trigger] self.alphas[i])
        &&& forall|i: int|
            0 <= i < self.constraint_accs.len() ==> (#[trigger] self.constraint_accs[i]).defined_in(
                builder,
            ) && self.constraint_accs[i].0.len() == builder.ctx.degree
        &&& self.z_last.defined_in(builder) && self.z_last.0.len() == builder.ctx.degree
        &&& self.lagrange_basis_first.defined_in(builder) && self.lagrange_basis_first.0.len()
            == builder.ctx.degree
        &&& self.lagrange_basis_last.defined_in(builder) && self.lagrange_basis_last.0.len()
            == builder.ctx.degree
    }

    /// Adds one constraint as it stands.
    #[verifier::rlimit(40)]
    pub fn constraint_wrapping(&mut self, builder: &mut CircuitBuilder, constraint: &NonnativeTarget)
        requires
            old(builder).wf(),
            old(self).wf(*old(builder)),
            constraint.defined_in(*old(builder)),
            constraint.0.len() == old(builder).ctx.degree,
        ensures
            final(builder).wf(),
            final(builder).extends(*old(builder)),
            final(builder).keeps(*old(builder)),
            final(builder).keeps_nonnative(*old(builder)),
            final(self).wf(*final(builder)),
            final(self).alphas == old(self).alphas,
            final(self).z_last == old(self).z_last,
            final(self).lagrange_basis_first == old(self).lagrange_basis_first,
            final(self).lagrange_basis_last == old(self).lagrange_basis_last,
            forall|wires: Map<Target, u64>| #[trigger]
                nonnative_values(*final(builder), wires, final(self).constraint_accs@)
                    == final(builder).ctx.spec_accumulate(
                    old(builder).values(wires, old(self).alphas@),
                    nonnative_values(*old(builder), wires, old(self).constraint_accs@),
                    old(builder).nonnative_value(wires, *constraint),
                ),
    {
        let ghost start = *builder;
        let ghost before = self.constraint_accs@;
        let n = self.constraint_accs.len();
        let mut i: usize = 0;
        proof {
            builder.lemma_extends_keeps(start);
            builder.lemma_keeps_all_nonnative(start);
        }
        while i < n
            invariant
                i <= n,
                n == self.constraint_accs.len(),
                n == self.alphas.len(),
                n == before.len(),
                builder.wf(),
                builder.extends(start),
                builder.keeps(start),
                builder.keeps_nonnative(start),
                constraint.defined_in(start),
                constraint.0.len() == start.ctx.degree,
                self.alphas == old(self).alphas,
                self.z_last == old(self).z_last,
                self.lagrange_basis_first == old(self).lagrange_basis_first,
                self.lagrange_basis_last == old(self).lagrange_basis_last,
                old(self).wf(start),
                before == old(self).constraint_accs@,
                forall|t: int| i <= t < n ==> #[trigger] self.constraint_accs[t] == before[t],
                forall|t: int|
                    0 <= t < i ==> (#[trigger] self.constraint_accs[t]).defined_in(*builder)
                        && self.constraint_accs[t].0.len() == start.ctx.degree,
                forall|wires: Map<Target, u64>, t: int|
                    0 <= t < i ==> #[trigger] builder.nonnative_value(
                        wires,
                        self.constraint_accs[t],
                    ) == start.ctx.spec_ext_add(
                        start.ctx.spec_ext_scale(
                            start.nonnative_value(wires, before[t]),
                            start.value(wires, self.alphas[t]),
                        ),
                        start.nonnative_value(wires, *constraint),
                    ),
            decreases n - i,
        {
            let ghost here = *builder;
            let ghost accs_here = self.constraint_accs@;
            proof {
                assert(before[i as int].defined_in(start));
                assert(start.defines(self.alphas[i as int]));
                here.lemma_keeps_nonnative(start, Map::empty(), before[i as int]);
                here.lemma_keeps_nonnative(start, Map::empty(), *constraint);
            }
            let next = builder.scalar_mul_add_extension(
                self.alphas[i],
                &self.constraint_accs[i],
                constraint,
            );
            proof {
                builder.lemma_extends_trans(here, start);
                builder.lemma_extends_keeps(start);
                builder.lemma_keeps_all_nonnative(start);
                assert forall|wires: Map<Target, u64>, t: int| 0 <= t < i + 1 implies #[trigger] builder.nonnative_value(
                    wires,
                    accs_here.update(i as int, next)[t],
                ) == start.ctx.spec_ext_add(
                    start.ctx.spec_ext_scale(
                        start.nonnative_value(wires, before[t]),
                        start.value(wires, self.alphas[t]),
                    ),
                    start.nonnative_value(wires, *constraint),
                ) by {
                    if t < i {
                        assert(accs_here[t].defined_in(here));
                        builder.lemma_keeps_nonnative(here, wires, accs_here[t]);
                    } else {
                        here.lemma_keeps_nonnative(start, wires, before[i as int]);
                        here.lemma_keeps_nonnative(start, wires, *constraint);
                        assert(here.value(wires, self.alphas[i as int]) == start.value(
                            wires,
                            self.alphas[i as int],
                        ));
                    }
                }
                assert forall|t: int| 0 <= t < i implies (#[trigger] accs_here[t]).defined_in(
                    *builder,
                ) by {
                    builder.lemma_keeps_nonnative(here, Map::empty(), accs_here[t]);
                }
            }
            self.constraint_accs[i] = next;
            i = i + 1;
        }
        proof {
            assert forall|wires: Map<Target, u64>| #[trigger]
                nonnative_values(*builder, wires, self.constraint_accs@)
                    == builder.ctx.spec_accumulate(
                    start.values(wires, self.alphas@),
                    nonnative_values(start, wires, before),
                    start.nonnative_value(wires, *constraint),
                ) by {
                assert(nonnative_values(*builder, wires, self.constraint_accs@)
                    =~= builder.ctx.spec_accumulate(
                    start.values(wires, self.alphas@),
                    nonnative_values(start, wires, before),
                    start.nonnative_value(wires, *constraint),
                ));
            }
            assert forall|t: int| 0 <= t < self.alphas.len() implies builder.defines(
                #[trigger] self.alphas[t],
            ) by {
                assert(start.defines(self.alphas[t]));
            }
            builder.lemma_keeps_nonnative(start, Map::empty(), self.z_last);
            builder.lemma_keeps_nonnative(start, Map::empty(), self.lagrange_basis_first);
            builder.lemma_keeps_nonnative(start, Map::empty(), self.lagrange_basis_last);
        }
    }

    /// Adds one constraint valid on all rows except the last.
    pub fn constraint(&mut self, builder: &mut CircuitBuilder, constraint: &NonnativeTarget)
        requires
            old(builder).wf(),
            old(self).wf(*old(builder)),
            constraint.defined_in(*old(builder)),
            constraint.0.len() == old(builder).ctx.degree,
        ensures
            final(builder).wf(),
            final(builder).extends(*old(builder)),
            final(builder).keeps(*old(builder)),
            final(builder).keeps_nonnative(*old(builder)),
            final(self).wf(*final(builder)),
            final(self).alphas == old(self).alphas,
            final(self).z_last == old(self).z_last,
            final(self).lagrange_basis_first == old(self).lagrange_basis_first,
            final(self).lagrange_basis_last == old(self).lagrange_basis_last,
            forall|wires: Map<Target, u64>| #[trigger]
                nonnative_values(*final(builder), wires, final(self).constraint_accs@)
                    == final(builder).ctx.spec_accumulate(
                    old(builder).values(wires, old(self).alphas@),
                    nonnative_values(*old(builder), wires, old(self).constraint_accs@),
                    final(builder).ctx.spec_ext_mul(
                        old(builder).nonnative_value(wires, *constraint),
                        old(builder).nonnative_value(wires, old(self).z_last),
                    ),
                ),
    {
        let ghost start = *builder;
        let weighted = builder.mul_extension(constraint, &self.z_last);
        let ghost middle = *builder;
        proof {
            self.lemma_wf_kept(start, middle);
        }
        self.constraint_wrapping(builder, &weighted);
        proof {
            builder.lemma_extends_trans(middle, start);
            builder.lemma_extends_keeps(start);
            builder.lemma_keeps_all_nonnative(start);
            assert forall|wires: Map<Target, u64>| #[trigger]
                nonnative_values(*builder, wires, self.constraint_accs@)
                    == builder.ctx.spec_accumulate(
                    start.values(wires, old(self).alphas@),
                    nonnative_values(start, wires, old(self).constraint_accs@),
                    builder.ctx.spec_ext_mul(
                        start.nonnative_value(wires, *constraint),
                        start.nonnative_value(wires, old(self).z_last),
                    ),
                ) by {
                old(self).lemma_values_kept(start, middle, wires);
            }
        }
    }

    /// Adds one constraint valid on the first row only.
    pub fn constraint_first_row(
        &mut self,
        builder: &mut CircuitBuilder,
        constraint: &NonnativeTarget,
    )
        requires
            old(builder).wf(),
            old(self).wf(*old(builder)),
            constraint.defined_in(*old(builder)),
            constraint.0.len() == old(builder).ctx.degree,
        ensures
            final(builder).wf(),
            final(builder).extends(*old(builder)),
            final(builder).keeps(*old(builder)),
            final(builder).keeps_nonnative(*old(builder)),
            final(self).wf(*final(builder)),
            final(self).alphas == old(self).alphas,
            final(self).z_last == old(self).z_last,
            final(self).lagrange_basis_first == old(self).lagrange_basis_first,
            final(self).lagrange_basis_last == old(self).lagrange_basis_last,
            forall|wires: Map<Target, u64>| #[trigger]
                nonnative_values(*final(builder), wires, final(self).constraint_accs@)
                    == final(builder).ctx.spec_accumulate(
                    old(builder).values(wires, old(self).alphas@),
                    nonnative_values(*old(builder), wires, old(self).constraint_accs@),
                    final(builder).ctx.spec_ext_mul(
                        old(builder).nonnative_value(wires, *constraint),
                        old(builder).nonnative_value(wires, old(self).lagrange_basis_first),
                    ),
                ),
    {
        let ghost start = *builder;
        let weighted = builder.mul_extension(constraint, &self.lagrange_basis_first);
        let ghost middle = *builder;
        proof {
            self.lemma_wf_kept(start, middle);
        }
        self.constraint_wrapping(builder, &weighted);
        proof {
            builder.lemma_extends_trans(middle, start);
            builder.lemma_extends_keeps(start);
            builder.lemma_keeps_all_nonnative(start);
            assert forall|wires: Map<Target, u64>| #[trigger]
                nonnative_values(*builder, wires, self.constraint_accs@)
                    == builder.ctx.spec_accumulate(
                    start.values(wires, old(self).alphas@),
                    nonnative_values(start, wires, old(self).constraint_accs@),
                    builder.ctx.spec_ext_mul(
                        start.nonnative_value(wires, *constraint),
                        start.nonnative_value(wires, old(self).lagrange_basis_first),
                    ),
                ) by {
                old(self).lemma_values_kept(start, middle, wires);
            }
        }
    }

    /// A consumer of a builder is one of every builder that keeps its values.
    pub proof fn lemma_wf_kept(self, before: CircuitBuilder, after: CircuitBuilder)
        requires
            self.wf(before),
            after.keeps(before),
            after.ctx == before.ctx,
        ensures
            self.wf(after),
    {
        assert forall|i: int| 0 <= i < self.alphas.len() implies after.defines(
            #[trigger] self.alphas[i],
        ) by {
            assert(before.defines(self.alphas[i]));
            assert(after.value(Map::empty(), self.alphas[i]) == before.value(
                Map::empty(),
                self.alphas[i],
            ));
        }
        assert forall|i: int| 0 <= i < self.constraint_accs.len() implies (
        #[trigger] self.constraint_accs[i]).defined_in(after) by {
            after.lemma_keeps_nonnative(before, Map::empty(), self.constraint_accs[i]);
        }
        after.lemma_keeps_nonnative(before, Map::empty(), self.z_last);
        after.lemma_keeps_nonnative(before, Map::empty(), self.lagrange_basis_first);
        after.lemma_keeps_nonnative(before, Map::empty(), self.lagrange_basis_last);
    }

    /// The challenges and accumulators of a consumer keep their values in
    /// every builder that keeps the values of the consumer's builder.
    pub proof fn lemma_values_kept(
        self,
        before: CircuitBuilder,
        after: CircuitBuilder,
        wires: Map<Target, u64>,
    )
        requires
            self.wf(before),
            after.keeps(before),
        ensures
            after.values(wires, self.alphas@) == before.values(wires, self.alphas@),
            nonnative_values(after, wires, self.constraint_accs@) == nonnative_values(
                before,
                wires,
                self.constraint_accs@,
            ),
    {
        assert forall|i: int| 0 <= i < self.alphas.len() implies after.value(
            wires,
            self.alphas[i],
        ) == before.value(wires, self.alphas[i]) by {
            assert(before.defines(self.alphas[i]));
        }
        assert(after.values(wires, self.alphas@) =~= before.values(wires, self.alphas@));
        assert forall|i: int| 0 <= i < self.constraint_accs.len() implies after.nonnative_value(
            wires,
            self.constraint_accs[i],
        ) == before.nonnative_value(wires, self.constraint_accs[i]) by {
            after.lemma_keeps_nonnative(before, wires, self.constraint_accs[i]);
        }
        assert(nonnative_values(after, wires, self.constraint_accs@) =~= nonnative_values(
            before,
            wires,
            self.constraint_accs@,
        ));
    }
}

} // verus!
