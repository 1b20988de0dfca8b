//! The memory table: its segments, and the constraints that hold a
//! memory log sorted by address to its order.

use crate::circuit_builder::CircuitBuilder;
use crate::constraint_consumer::{
    nonnative_values, ConstraintConsumer, RecursiveConstraintConsumer,
};
use crate::extension::deep;
use crate::field::FieldContext;
use crate::nonnative_target::NonnativeTarget;
use crate::registers::{
    MEMORY_ALL_TRACES_COMBINED, MEMORY_CURRENT, MEMORY_TRACE_CONTEXT, MEMORY_TRACE_SEGMENT,
    MEMORY_TRACE_VIRTUAL, MEMORY_TWO_TRACES_COMBINED, NUM_COLUMNS, SORTED_MEMORY_ADDR_CONTEXT,
    SORTED_MEMORY_ADDR_SEGMENT, SORTED_MEMORY_ADDR_VIRTUAL, SORTED_MEMORY_FROM,
    SORTED_MEMORY_TIMESTAMP, SORTED_MEMORY_TO, START_RANGE_CHECK_INPUTS, col_rc_degree_input,
};
use crate::target::Target;
use vstd::prelude::*;

verus! {

/// The memory of one transaction: one virtual memory space per contract call.
#[derive(Debug, Default)]
pub struct TransactionMemory {
    pub calls: Vec<ContractMemory>,
}

/// A virtual memory space specific to the current contract call.
#[derive(Debug)]
pub struct ContractMemory {
    pub code: MemorySegment,
    pub main: MemorySegment,
    pub calldata: MemorySegment,
    pub returndata: MemorySegment,
}

/// The bytes of one segment.
#[derive(Debug)]
pub struct MemorySegment {
    pub content: Vec<u8>,
}

/// The number of constraints on a row of the memory table.
pub const NUM_MEMORY_CONSTRAINTS: usize = 14;

/// The number of the one constraint that binds the first row only.
pub const FIRST_ROW_CONSTRAINT: usize = 11;

/// Two adjoining rows of the table, as values of the extension field.
#[derive(Debug)]
pub struct StarkEvaluationVars {
    pub local_values: Vec<Vec<u64>>,
    pub next_values: Vec<Vec<u64>>,
    pub public_inputs: Vec<u64>,
}

/// Two adjoining rows of the table, as targets of a circuit.
#[derive(Debug)]
pub struct StarkEvaluationTargets {
    pub local_values: Vec<NonnativeTarget>,
    pub next_values: Vec<NonnativeTarget>,
    pub public_inputs: Vec<Target>,
}

impl StarkEvaluationVars {
    /// Both rows have every column, each an element of the extension field.
    pub open spec fn wf(self, ctx: FieldContext) -> bool {
        &&& self.local_values.len() == NUM_COLUMNS
        &&& self.next_values.len() == NUM_COLUMNS
        &&& ctx.all_ext(deep(self.local_values@))
        &&& ctx.all_ext(deep(self.next_values@))
    }
}

impl StarkEvaluationTargets {
    /// Both rows have every column, each an extension target that the
    /// builder defines.
    pub open spec fn wf(self, builder: CircuitBuilder) -> bool {
        &&& self.local_values.len() == NUM_COLUMNS
        &&& self.next_values.len() == NUM_COLUMNS
        &&& forall|i: int|
            0 <= i < NUM_COLUMNS ==> (#[trigger] self.local_values[i]).defined_in(builder)
                && self.local_values[i].0.len() == builder.ctx.degree
        &&& forall|i: int|
            0 <= i < NUM_COLUMNS ==> (#[trigger] self.next_values[i]).defined_in(builder)
                && self.next_values[i].0.len() == builder.ctx.degree
    }
}

impl FieldContext {
    /// `x * (1 - x)`, which vanishes where `x` is zero or one.
    pub open spec fn spec_boolean(self, x: Seq<u64>) -> Seq<u64> {
        self.spec_ext_mul(x, self.spec_ext_sub(self.spec_ext_one(), x))
    }

    /// `t * (next - current)`, which vanishes where the column stays as it is or `t` is zero.
    pub open spec fn spec_gated_difference(
        self,
        t: Seq<u64>,
        next: Seq<u64>,
        current: Seq<u64>,
    ) -> Seq<u64> {
        self.spec_ext_mul(t, self.spec_ext_sub(next, current))
    }

    /// `rc - t * (next_minor - minor) - (1 - t) * (next_major - major - 1)`: the
    /// range-checked value is the step of the minor column where the major one
    /// stays, and the step of the major column less one where it moves.
    pub open spec fn spec_range_check(
        self,
        rc: Seq<u64>,
        t: Seq<u64>,
        next_minor: Seq<u64>,
        minor: Seq<u64>,
        next_major: Seq<u64>,
        major: Seq<u64>,
    ) -> Seq<u64> {
        self.spec_ext_sub(
            self.spec_ext_sub(rc, self.spec_ext_mul(t, self.spec_ext_sub(next_minor, minor))),
            self.spec_ext_mul(
                self.spec_ext_sub(self.spec_ext_one(), t),
                self.spec_ext_sub(self.spec_ext_sub(next_major, major), self.spec_ext_one()),
            ),
        )
    }

    /// `x - (1 - a) * (1 - b)`.
    pub open spec fn spec_two_combined(self, x: Seq<u64>, a: Seq<u64>, b: Seq<u64>) -> Seq<u64> {
        self.spec_ext_sub(
            x,
            self.spec_ext_mul(
                self.spec_ext_sub(self.spec_ext_one(), a),
                self.spec_ext_sub(self.spec_ext_one(), b),
            ),
        )
    }

    /// `y - x * (1 - c)`.
    pub open spec fn spec_all_combined(self, y: Seq<u64>, x: Seq<u64>, c: Seq<u64>) -> Seq<u64> {
        self.spec_ext_sub(y, self.spec_ext_mul(x, self.spec_ext_sub(self.spec_ext_one(), c)))
    }

    /// `a - b`.
    pub open spec fn spec_difference(self, a: Seq<u64>, b: Seq<u64>) -> Seq<u64> {
        self.spec_ext_sub(a, b)
    }

    /// `next_current - all * to`.
    pub open spec fn spec_next_current(
        self,
        next_current: Seq<u64>,
        all: Seq<u64>,
        to: Seq<u64>,
    ) -> Seq<u64> {
        self.spec_ext_sub(next_current, self.spec_ext_mul(all, to))
    }


    /// `x * (1 - x)`, which vanishes where `x` is zero or one.
    pub fn boolean(&self, x: &Vec<u64>) -> (r: Vec<u64>)
        requires
            self.modulus > 1,
            self.is_elem(self.w),
            self.is_ext(x@),
        ensures
            r@ == self.spec_boolean(x@),
            self.is_ext(r@),
    {
        let one = self.ext_one();
        let rest = self.ext_sub(&one, x);
        self.ext_mul(x, &rest)
    }

    /// `t * (next - current)`, which vanishes where the column stays as it is or `t` is zero.
    pub fn gated_difference(&self, t: &Vec<u64>, next: &Vec<u64>, current: &Vec<u64>) -> (r: Vec<u64>)
        requires
            self.modulus > 1,
            self.is_elem(self.w),
            self.is_ext(t@),
            self.is_ext(next@),
            self.is_ext(current@),
        ensures
            r@ == self.spec_gated_difference(t@, next@, current@),
            self.is_ext(r@),
    {
        let step = self.ext_sub(next, current);
        self.ext_mul(t, &step)
    }

    /// `rc - t * (next_minor - minor) - (1 - t) * (next_major - major - 1)`: the
    /// range-checked value is the step of the minor column where the major one
    /// stays, and the step of the major column less one where it moves.
    pub fn range_check(
        &self,
        rc: &Vec<u64>,
        t: &Vec<u64>,
        next_minor: &Vec<u64>,
        minor: &Vec<u64>,
        next_major: &Vec<u64>,
        major: &Vec<u64>,
    ) -> (r: Vec<u64>)
        requires
            self.modulus > 1,
            self.is_elem(self.w),
            self.is_ext(rc@),
            self.is_ext(t@),
            self.is_ext(next_minor@),
            self.is_ext(minor@),
            self.is_ext(next_major@),
            self.is_ext(major@),
        ensures
            r@ == self.spec_range_check(rc@, t@, next_minor@, minor@, next_major@, major@),
            self.is_ext(r@),
    {
        let one = self.ext_one();
        let minor_step = self.ext_sub(next_minor, minor);
        let if_equal = self.ext_mul(t, &minor_step);
        let not_t = self.ext_sub(&one, t);
        let major_step = self.ext_sub(next_major, major);
        let major_step_less_one = self.ext_sub(&major_step, &one);
        let if_unequal = self.ext_mul(&not_t, &major_step_less_one);
        let without_equal = self.ext_sub(rc, &if_equal);
        self.ext_sub(&without_equal, &if_unequal)
    }

    /// `x - (1 - a) * (1 - b)`.
    pub fn two_combined(&self, x: &Vec<u64>, a: &Vec<u64>, b: &Vec<u64>) -> (r: Vec<u64>)
        requires
            self.modulus > 1,
            self.is_elem(self.w),
            self.is_ext(x@),
            self.is_ext(a@),
            self.is_ext(b@),
        ensures
            r@ == self.spec_two_combined(x@, a@, b@),
            self.is_ext(r@),
    {
        let one = self.ext_one();
        let not_a = self.ext_sub(&one, a);
        let not_b = self.ext_sub(&one, b);
        let expected = self.ext_mul(&not_a, &not_b);
        self.ext_sub(x, &expected)
    }

    /// `y - x * (1 - c)`.
    pub fn all_combined(&self, y: &Vec<u64>, x: &Vec<u64>, c: &Vec<u64>) -> (r: Vec<u64>)
        requires
            self.modulus > 1,
            self.is_elem(self.w),
            self.is_ext(y@),
            self.is_ext(x@),
            self.is_ext(c@),
        ensures
            r@ == self.spec_all_combined(y@, x@, c@),
            self.is_ext(r@),
    {
        let one = self.ext_one();
        let not_c = self.ext_sub(&one, c);
        let expected = self.ext_mul(x, &not_c);
        self.ext_sub(y, &expected)
    }

    /// `a - b`.
    pub fn difference(&self, a: &Vec<u64>, b: &Vec<u64>) -> (r: Vec<u64>)
        requires
            self.modulus > 1,
            self.is_elem(self.w),
            self.is_ext(a@),
            self.is_ext(b@),
        ensures
            r@ == self.spec_difference(a@, b@),
            self.is_ext(r@),
    {
        self.ext_sub(a, b)
    }

    /// `next_current - all * to`.
    pub fn next_current(&self, next_current: &Vec<u64>, all: &Vec<u64>, to: &Vec<u64>) -> (r: Vec<u64>)
        requires
            self.modulus > 1,
            self.is_elem(self.w),
            self.is_ext(next_current@),
            self.is_ext(all@),
            self.is_ext(to@),
        ensures
            r@ == self.spec_next_current(next_current@, all@, to@),
            self.is_ext(r@),
    {
        let expected = self.ext_mul(all, to);
        self.ext_sub(next_current, &expected)
    }
}

impl CircuitBuilder {
    /// A target for `x * (1 - x)`, which vanishes where `x` is zero or one.
    pub fn boolean_extension(&mut self, x: &NonnativeTarget) -> (r: NonnativeTarget)
        requires
            old(self).wf(),
            x.defined_in(*old(self)),
            x.0.len() == old(self).ctx.degree,
        ensures
            final(self).wf(),
            final(self).extends(*old(self)),
            final(self).keeps(*old(self)),
            final(self).keeps_nonnative(*old(self)),
            r.0.len() == final(self).ctx.degree,
            r.defined_in(*final(self)),
            forall|wires: Map<Target, u64>| #[trigger]
                final(self).nonnative_value(wires, r) == final(self).ctx.spec_boolean(
                    old(self).nonnative_value(wires, *x),
                ),
    {
        let ghost start = *self;
        let one = self.one_extension();
        let rest = self.sub_extension(&one, x);
        let r = self.mul_extension(x, &rest);
        proof {
            self.lemma_extends_keeps(start);
            self.lemma_keeps_all_nonnative(start);
        }
        r
    }

    /// A target for `t * (next - current)`, which vanishes where the column stays
    /// as it is or `t` is zero.
    pub fn gated_difference_extension(
        &mut self,
        t: &NonnativeTarget,
        next: &NonnativeTarget,
        current: &NonnativeTarget,
    ) -> (r: NonnativeTarget)
        requires
            old(self).wf(),
            t.defined_in(*old(self)),
            t.0.len() == old(self).ctx.degree,
            next.defined_in(*old(self)),
            next.0.len() == old(self).ctx.degree,
            current.defined_in(*old(self)),
            current.0.len() == old(self).ctx.degree,
        ensures
            final(self).wf(),
            final(self).extends(*old(self)),
            final(self).keeps(*old(self)),
            final(self).keeps_nonnative(*old(self)),
            r.0.len() == final(self).ctx.degree,
            r.defined_in(*final(self)),
            forall|wires: Map<Target, u64>| #[trigger]
                final(self).nonnative_value(wires, r) == final(self).ctx.spec_gated_difference(
                    old(self).nonnative_value(wires, *t),
                    old(self).nonnative_value(wires, *next),
                    old(self).nonnative_value(wires, *current),
                ),
    {
        let ghost start = *self;
        let step = self.sub_extension(next, current);
        let r = self.mul_extension(t, &step);
        proof {
            self.lemma_extends_keeps(start);
            self.lemma_keeps_all_nonnative(start);
        }
        r
    }

    /// A target for `rc - t * (next_minor - minor) - (1 - t) * (next_major - major
    /// - 1)`: the range-checked value is the step of the minor column where the
    /// major one stays, and the step of the major column less one where it moves.
    pub fn range_check_extension(
        &mut self,
        rc: &NonnativeTarget,
        t: &NonnativeTarget,
        next_minor: &NonnativeTarget,
        minor: &NonnativeTarget,
        next_major: &NonnativeTarget,
        major: &NonnativeTarget,
    ) -> (r: NonnativeTarget)
        requires
            old(self).wf(),
            rc.defined_in(*old(self)),
            rc.0.len() == old(self).ctx.degree,
            t.defined_in(*old(self)),
            t.0.len() == old(self).ctx.degree,
            next_minor.defined_in(*old(self)),
            next_minor.0.len() == old(self).ctx.degree,
            minor.defined_in(*old(self)),
            minor.0.len() == old(self).ctx.degree,
            next_major.defined_in(*old(self)),
            next_major.0.len() == old(self).ctx.degree,
            major.defined_in(*old(self)),
            major.0.len() == old(self).ctx.degree,
        ensures
            final(self).wf(),
            final(self).extends(*old(self)),
            final(self).keeps(*old(self)),
            final(self).keeps_nonnative(*old(self)),
            r.0.len() == final(self).ctx.degree,
            r.defined_in(*final(self)),
            forall|wires: Map<Target, u64>| #[trigger]
                final(self).nonnative_value(wires, r) == final(self).ctx.spec_range_check(
                    old(self).nonnative_value(wires, *rc),
                    old(self).nonnative_value(wires, *t),
                    old(self).nonnative_value(wires, *next_minor),
                    old(self).nonnative_value(wires, *minor),
                    old(self).nonnative_value(wires, *next_major),
                    old(self).nonnative_value(wires, *major),
                ),
    {
        let ghost start = *self;
        let one = self.one_extension();
        let minor_step = self.sub_extension(next_minor, minor);
        let if_equal = self.mul_extension(t, &minor_step);
        let not_t = self.sub_extension(&one, t);
        let major_step = self.sub_extension(next_major, major);
        let major_step_less_one = self.sub_extension(&major_step, &one);
        let if_unequal = self.mul_extension(&not_t, &major_step_less_one);
        let without_equal = self.sub_extension(rc, &if_equal);
        let r = self.sub_extension(&without_equal, &if_unequal);
        proof {
            self.lemma_extends_keeps(start);
            self.lemma_keeps_all_nonnative(start);
        }
        r
    }

    /// A target for `x - (1 - a) * (1 - b)`.
    pub fn two_combined_extension(
        &mut self,
        x: &NonnativeTarget,
        a: &NonnativeTarget,
        b: &NonnativeTarget,
    ) -> (r: NonnativeTarget)
        requires
            old(self).wf(),
            x.defined_in(*old(self)),
            x.0.len() == old(self).ctx.degree,
            a.defined_in(*old(self)),
            a.0.len() == old(self).ctx.degree,
            b.defined_in(*old(self)),
            b.0.len() == old(self).ctx.degree,
        ensures
            final(self).wf(),
            final(self).extends(*old(self)),
            final(self).keeps(*old(self)),
            final(self).keeps_nonnative(*old(self)),
            r.0.len() == final(self).ctx.degree,
            r.defined_in(*final(self)),
            forall|wires: Map<Target, u64>| #[trigger]
                final(self).nonnative_value(wires, r) == final(self).ctx.spec_two_combined(
                    old(self).nonnative_value(wires, *x),
                    old(self).nonnative_value(wires, *a),
                    old(self).nonnative_value(wires, *b),
                ),
    {
        let ghost start = *self;
        let one = self.one_extension();
        let not_a = self.sub_extension(&one, a);
        let not_b = self.sub_extension(&one, b);
        let expected = self.mul_extension(&not_a, &not_b);
        let r = self.sub_extension(x, &expected);
        proof {
            self.lemma_extends_keeps(start);
            self.lemma_keeps_all_nonnative(start);
        }
        r
    }

    /// A target for `y - x * (1 - c)`.
    pub fn all_combined_extension(
        &mut self,
        y: &NonnativeTarget,
        x: &NonnativeTarget,
        c: &NonnativeTarget,
    ) -> (r: NonnativeTarget)
        requires
            old(self).wf(),
            y.defined_in(*old(self)),
            y.0.len() == old(self).ctx.degree,
            x.defined_in(*old(self)),
            x.0.len() == old(self).ctx.degree,
            c.defined_in(*old(self)),
            c.0.len() == old(self).ctx.degree,
        ensures
            final(self).wf(),
            final(self).extends(*old(self)),
            final(self).keeps(*old(self)),
            final(self).keeps_nonnative(*old(self)),
            r.0.len() == final(self).ctx.degree,
            r.defined_in(*final(self)),
            forall|wires: Map<Target, u64>| #[trigger]
                final(self).nonnative_value(wires, r) == final(self).ctx.spec_all_combined(
                    old(self).nonnative_value(wires, *y),
                    old(self).nonnative_value(wires, *x),
                    old(self).nonnative_value(wires, *c),
                ),
    {
        let ghost start = *self;
        let one = self.one_extension();
        let not_c = self.sub_extension(&one, c);
        let expected = self.mul_extension(x, &not_c);
        let r = self.sub_extension(y, &expected);
        proof {
            self.lemma_extends_keeps(start);
            self.lemma_keeps_all_nonnative(start);
        }
        r
    }

    /// A target for `a - b`.
    pub fn difference_extension(&mut self, a: &NonnativeTarget, b: &NonnativeTarget) -> (r: NonnativeTarget)
        requires
            old(self).wf(),
            a.defined_in(*old(self)),
            a.0.len() == old(self).ctx.degree,
            b.defined_in(*old(self)),
            b.0.len() == old(self).ctx.degree,
        ensures
            final(self).wf(),
            final(self).extends(*old(self)),
            final(self).keeps(*old(self)),
            final(self).keeps_nonnative(*old(self)),
            r.0.len() == final(self).ctx.degree,
            r.defined_in(*final(self)),
            forall|wires: Map<Target, u64>| #[trigger]
                final(self).nonnative_value(wires, r) == final(self).ctx.spec_difference(
                    old(self).nonnative_value(wires, *a),
                    old(self).nonnative_value(wires, *b),
                ),
    {
        let ghost start = *self;
        let r = self.sub_extension(a, b);
        proof {
            self.lemma_extends_keeps(start);
            self.lemma_keeps_all_nonnative(start);
        }
        r
    }

    /// A target for `next_current - all * to`.
    pub fn next_current_extension(
        &mut self,
        next_current: &NonnativeTarget,
        all: &NonnativeTarget,
        to: &NonnativeTarget,
    ) -> (r: NonnativeTarget)
        requires
            old(self).wf(),
            next_current.defined_in(*old(self)),
            next_current.0.len() == old(self).ctx.degree,
            all.defined_in(*old(self)),
            all.0.len() == old(self).ctx.degree,
            to.defined_in(*old(self)),
            to.0.len() == old(self).ctx.degree,
        ensures
            final(self).wf(),
            final(self).extends(*old(self)),
            final(self).keeps(*old(self)),
            final(self).keeps_nonnative(*old(self)),
            r.0.len() == final(self).ctx.degree,
            r.defined_in(*final(self)),
            forall|wires: Map<Target, u64>| #[trigger]
                final(self).nonnative_value(wires, r) == final(self).ctx.spec_next_current(
                    old(self).nonnative_value(wires, *next_current),
                    old(self).nonnative_value(wires, *all),
                    old(self).nonnative_value(wires, *to),
                ),
    {
        let ghost start = *self;
        let expected = self.mul_extension(all, to);
        let r = self.sub_extension(next_current, &expected);
        proof {
            self.lemma_extends_keeps(start);
            self.lemma_keeps_all_nonnative(start);
        }
        r
    }
}

/// Constraint `k` on two adjoining rows.
///
/// The first three make the trace flags boolean. The next three let a flag
/// be set only where its address column stays as it is. The next three tie
/// the range-checked differences to the column that must grow. The next two
/// define the products of the negated flags. The last three run the log
/// through the `current` column.
pub open spec fn memory_constraint(
    ctx: FieldContext,
    local: Seq<Seq<u64>>,
    next: Seq<Seq<u64>>,
    k: int,
) -> Seq<u64> {
    if k == 0 {
        ctx.spec_boolean(local[(MEMORY_TRACE_CONTEXT) as int])
    } else if k == 1 {
        ctx.spec_boolean(local[(MEMORY_TRACE_SEGMENT) as int])
    } else if k == 2 {
        ctx.spec_boolean(local[(MEMORY_TRACE_VIRTUAL) as int])
    } else if k == 3 {
        ctx.spec_gated_difference(
            local[(MEMORY_TRACE_CONTEXT) as int],
            next[(SORTED_MEMORY_ADDR_CONTEXT) as int],
            local[(SORTED_MEMORY_ADDR_CONTEXT) as int],
        )
    } else if k == 4 {
        ctx.spec_gated_difference(
            local[(MEMORY_TRACE_SEGMENT) as int],
            next[(SORTED_MEMORY_ADDR_SEGMENT) as int],
            local[(SORTED_MEMORY_ADDR_SEGMENT) as int],
        )
    } else if k == 5 {
        ctx.spec_gated_difference(
            local[(MEMORY_TRACE_VIRTUAL) as int],
            next[(SORTED_MEMORY_ADDR_VIRTUAL) as int],
            local[(SORTED_MEMORY_ADDR_VIRTUAL) as int],
        )
    } else if k == 6 {
        ctx.spec_range_check(
            local[(START_RANGE_CHECK_INPUTS + 0) as int],
            local[(MEMORY_TRACE_CONTEXT) as int],
            next[(SORTED_MEMORY_ADDR_SEGMENT) as int],
            local[(SORTED_MEMORY_ADDR_SEGMENT) as int],
            next[(SORTED_MEMORY_ADDR_CONTEXT) as int],
            local[(SORTED_MEMORY_ADDR_CONTEXT) as int],
        )
    } else if k == 7 {
        ctx.spec_range_check(
            local[(START_RANGE_CHECK_INPUTS + 1) as int],
            local[(MEMORY_TRACE_SEGMENT) as int],
            next[(SORTED_MEMORY_ADDR_VIRTUAL) as int],
            local[(SORTED_MEMORY_ADDR_VIRTUAL) as int],
            next[(SORTED_MEMORY_ADDR_SEGMENT) as int],
            local[(SORTED_MEMORY_ADDR_SEGMENT) as int],
        )
    } else if k == 8 {
        ctx.spec_range_check(
            local[(START_RANGE_CHECK_INPUTS + 2) as int],
            local[(MEMORY_TRACE_VIRTUAL) as int],
            next[(SORTED_MEMORY_TIMESTAMP) as int],
            local[(SORTED_MEMORY_TIMESTAMP) as int],
            next[(SORTED_MEMORY_ADDR_VIRTUAL) as int],
            local[(SORTED_MEMORY_ADDR_VIRTUAL) as int],
        )
    } else if k == 9 {
        ctx.spec_two_combined(
            local[(MEMORY_TWO_TRACES_COMBINED) as int],
            local[(MEMORY_TRACE_CONTEXT) as int],
            local[(MEMORY_TRACE_SEGMENT) as int],
        )
    } else if k == 10 {
        ctx.spec_all_combined(
            local[(MEMORY_ALL_TRACES_COMBINED) as int],
            local[(MEMORY_TWO_TRACES_COMBINED) as int],
            local[(MEMORY_TRACE_VIRTUAL) as int],
        )
    } else if k == 11 {
        local[(MEMORY_CURRENT) as int]
    } else if k == 12 {
        ctx.spec_difference(local[(MEMORY_CURRENT) as int], local[(SORTED_MEMORY_FROM) as int])
    } else if k == 13 {
        ctx.spec_next_current(
            next[(MEMORY_CURRENT) as int],
            local[(MEMORY_ALL_TRACES_COMBINED) as int],
            local[(SORTED_MEMORY_TO) as int],
        )
    } else {
        ctx.spec_ext_zero()
    }
}

/// The accumulators after the first `count` constraints: each constraint
/// is multiplied by the factor that confines it to its rows, and folded
/// into every accumulator.
pub open spec fn spec_memory_accs(
    ctx: FieldContext,
    alphas: Seq<u64>,
    accs: Seq<Seq<u64>>,
    local: Seq<Seq<u64>>,
    next: Seq<Seq<u64>>,
    z_last: Seq<u64>,
    lagrange_basis_first: Seq<u64>,
    count: nat,
) -> Seq<Seq<u64>>
    decreases count,
{
    if count == 0 {
        accs
    } else {
        let k = (count - 1) as int;
        ctx.spec_accumulate(
            alphas,
            spec_memory_accs(
                ctx,
                alphas,
                accs,
                local,
                next,
                z_last,
                lagrange_basis_first,
                (count - 1) as nat,
            ),
            ctx.spec_ext_mul(
                memory_constraint(ctx, local, next, k),
                if k == FIRST_ROW_CONSTRAINT {
                    lagrange_basis_first
                } else {
                    z_last
                },
            ),
        )
    }
}

/// The values of the challenges are those of the builder they came from.
pub proof fn lemma_alphas_kept(
    before: CircuitBuilder,
    after: CircuitBuilder,
    wires: Map<Target, u64>,
    alphas: Seq<Target>,
)
    requires
        after.keeps(before),
        forall|i: int| 0 <= i < alphas.len() ==> before.defines(#[trigger] alphas[i]),
    ensures
        after.values(wires, alphas) == before.values(wires, alphas),
{
    assert forall|i: int| 0 <= i < alphas.len() implies after.value(wires, alphas[i])
        == before.value(wires, alphas[i]) by {
        assert(before.defines(alphas[i]));
    }
    assert(after.values(wires, alphas) =~= before.values(wires, alphas));
}

/// The values of extension targets are those of the builder they came from.
pub proof fn lemma_accs_kept(
    before: CircuitBuilder,
    after: CircuitBuilder,
    wires: Map<Target, u64>,
    accs: Seq<NonnativeTarget>,
)
    requires
        after.keeps(before),
        forall|i: int| 0 <= i < accs.len() ==> (#[trigger] accs[i]).defined_in(before),
    ensures
        nonnative_values(after, wires, accs) == nonnative_values(before, wires, accs),
{
    assert forall|i: int| 0 <= i < accs.len() implies after.nonnative_value(wires, accs[i])
        == before.nonnative_value(wires, accs[i]) by {
        after.lemma_keeps_nonnative(before, wires, accs[i]);
    }
    assert(nonnative_values(after, wires, accs) =~= nonnative_values(before, wires, accs));
}

/// Fills in the columns of a row that the other columns of the row
/// determine: the products of the negated trace flags, and the value that
/// the log carries into the row, which is the value before the access.
pub fn generate_memory(ctx: &FieldContext, values: &mut Vec<u64>)
    requires
        ctx.modulus > 1,
        old(values).len() == NUM_COLUMNS,
        ctx.all_elems(old(values)@),
    ensures
        final(values).len() == NUM_COLUMNS,
        ctx.all_elems(final(values)@),
        forall|c: int|
            0 <= c < NUM_COLUMNS && c != MEMORY_TWO_TRACES_COMBINED && c
                != MEMORY_ALL_TRACES_COMBINED && c != MEMORY_CURRENT ==> final(values)[c] == old(
                values,
            )[c],
        final(values)[MEMORY_TWO_TRACES_COMBINED as int] == ctx.spec_mul(
            ctx.spec_sub(1, old(values)[MEMORY_TRACE_CONTEXT as int]),
            ctx.spec_sub(1, old(values)[MEMORY_TRACE_SEGMENT as int]),
        ),
        final(values)[MEMORY_ALL_TRACES_COMBINED as int] == ctx.spec_mul(
            final(values)[MEMORY_TWO_TRACES_COMBINED as int],
            ctx.spec_sub(1, old(values)[MEMORY_TRACE_VIRTUAL as int]),
        ),
        final(values)[MEMORY_CURRENT as int] == old(values)[SORTED_MEMORY_FROM as int],
{
    let not_context = ctx.sub(1, values[MEMORY_TRACE_CONTEXT]);
    let not_segment = ctx.sub(1, values[MEMORY_TRACE_SEGMENT]);
    let not_virtual = ctx.sub(1, values[MEMORY_TRACE_VIRTUAL]);
    let two_traces_combined = ctx.mul(not_context, not_segment);
    let all_traces_combined = ctx.mul(two_traces_combined, not_virtual);
    let from = values[SORTED_MEMORY_FROM];
    values[MEMORY_TWO_TRACES_COMBINED] = two_traces_combined;
    values[MEMORY_ALL_TRACES_COMBINED] = all_traces_combined;
    values[MEMORY_CURRENT] = from;
}

/// Constraint `k` on two adjoining rows, as a value.
pub fn memory_constraint_value(ctx: &FieldContext, vars: &StarkEvaluationVars, k: usize) -> (r:
    Vec<u64>)
    requires
        ctx.modulus > 1,
        ctx.is_elem(ctx.w),
        vars.wf(*ctx),
        k < NUM_MEMORY_CONSTRAINTS,
    ensures
        r@ == memory_constraint(*ctx, deep(vars.local_values@), deep(vars.next_values@), k as int),
        ctx.is_ext(r@),
{
    proof {
        assert forall|i: int| 0 <= i < NUM_COLUMNS implies ctx.is_ext(
            #[trigger] vars.local_values[i]@,
        ) by {
            assert(ctx.is_ext(deep(vars.local_values@)[i]));
        }
        assert forall|i: int| 0 <= i < NUM_COLUMNS implies ctx.is_ext(
            #[trigger] vars.next_values[i]@,
        ) by {
            assert(ctx.is_ext(deep(vars.next_values@)[i]));
        }
    }
    if k == 0 {
        ctx.boolean(&vars.local_values[MEMORY_TRACE_CONTEXT])
    } else if k == 1 {
        ctx.boolean(&vars.local_values[MEMORY_TRACE_SEGMENT])
    } else if k == 2 {
        ctx.boolean(&vars.local_values[MEMORY_TRACE_VIRTUAL])
    } else if k == 3 {
        ctx.gated_difference(
            &vars.local_values[MEMORY_TRACE_CONTEXT],
            &vars.next_values[SORTED_MEMORY_ADDR_CONTEXT],
            &vars.local_values[SORTED_MEMORY_ADDR_CONTEXT],
        )
    } else if k == 4 {
        ctx.gated_difference(
            &vars.local_values[MEMORY_TRACE_SEGMENT],
            &vars.next_values[SORTED_MEMORY_ADDR_SEGMENT],
            &vars.local_values[SORTED_MEMORY_ADDR_SEGMENT],
        )
    } else if k == 5 {
        ctx.gated_difference(
            &vars.local_values[MEMORY_TRACE_VIRTUAL],
            &vars.next_values[SORTED_MEMORY_ADDR_VIRTUAL],
            &vars.local_values[SORTED_MEMORY_ADDR_VIRTUAL],
        )
    } else if k == 6 {
        ctx.range_check(
            &vars.local_values[col_rc_degree_input(0)],
            &vars.local_values[MEMORY_TRACE_CONTEXT],
            &vars.next_values[SORTED_MEMORY_ADDR_SEGMENT],
            &vars.local_values[SORTED_MEMORY_ADDR_SEGMENT],
            &vars.next_values[SORTED_MEMORY_ADDR_CONTEXT],
            &vars.local_values[SORTED_MEMORY_ADDR_CONTEXT],
        )
    } else if k == 7 {
        ctx.range_check(
            &vars.local_values[col_rc_degree_input(1)],
            &vars.local_values[MEMORY_TRACE_SEGMENT],
            &vars.next_values[SORTED_MEMORY_ADDR_VIRTUAL],
            &vars.local_values[SORTED_MEMORY_ADDR_VIRTUAL],
            &vars.next_values[SORTED_MEMORY_ADDR_SEGMENT],
            &vars.local_values[SORTED_MEMORY_ADDR_SEGMENT],
        )
    } else if k == 8 {
        ctx.range_check(
            &vars.local_values[col_rc_degree_input(2)],
            &vars.local_values[MEMORY_TRACE_VIRTUAL],
            &vars.next_values[SORTED_MEMORY_TIMESTAMP],
            &vars.local_values[SORTED_MEMORY_TIMESTAMP],
            &vars.next_values[SORTED_MEMORY_ADDR_VIRTUAL],
            &vars.local_values[SORTED_MEMORY_ADDR_VIRTUAL],
        )
    } else if k == 9 {
        ctx.two_combined(
            &vars.local_values[MEMORY_TWO_TRACES_COMBINED],
            &vars.local_values[MEMORY_TRACE_CONTEXT],
            &vars.local_values[MEMORY_TRACE_SEGMENT],
        )
    } else if k == 10 {
        ctx.all_combined(
            &vars.local_values[MEMORY_ALL_TRACES_COMBINED],
            &vars.local_values[MEMORY_TWO_TRACES_COMBINED],
            &vars.local_values[MEMORY_TRACE_VIRTUAL],
        )
    } else if k == 11 {
        vars.local_values[MEMORY_CURRENT].clone()
    } else if k == 12 {
        ctx.difference(&vars.local_values[MEMORY_CURRENT], &vars.local_values[SORTED_MEMORY_FROM])
    } else if k == 13 {
        ctx.next_current(
            &vars.next_values[MEMORY_CURRENT],
            &vars.local_values[MEMORY_ALL_TRACES_COMBINED],
            &vars.local_values[SORTED_MEMORY_TO],
        )
    } else {
        ctx.ext_zero()
    }
}

/// Constraint `k` on two adjoining rows, as a target of the circuit.
#[verifier::rlimit(40)]
pub fn memory_constraint_target(
    builder: &mut CircuitBuilder,
    vars: &StarkEvaluationTargets,
    k: usize,
) -> (r: NonnativeTarget)
    requires
        old(builder).wf(),
        vars.wf(*old(builder)),
        k < NUM_MEMORY_CONSTRAINTS,
    ensures
        final(builder).wf(),
        final(builder).extends(*old(builder)),
        r.0.len() == final(builder).ctx.degree,
        r.defined_in(*final(builder)),
        forall|wires: Map<Target, u64>| #[trigger]
            final(builder).nonnative_value(wires, r) == memory_constraint(
                final(builder).ctx,
                nonnative_values(*old(builder), wires, vars.local_values@),
                nonnative_values(*old(builder), wires, vars.next_values@),
                k as int,
            ),
{
    let r = {
        if k == 0 {
            let r = builder.boolean_extension(&vars.local_values[MEMORY_TRACE_CONTEXT]);
            r
        } else if k == 1 {
            let r = builder.boolean_extension(&vars.local_values[MEMORY_TRACE_SEGMENT]);
            r
        } else if k == 2 {
            let r = builder.boolean_extension(&vars.local_values[MEMORY_TRACE_VIRTUAL]);
            r
        } else if k == 3 {
            let r = builder.gated_difference_extension(
                &vars.local_values[MEMORY_TRACE_CONTEXT],
                &vars.next_values[SORTED_MEMORY_ADDR_CONTEXT],
                &vars.local_values[SORTED_MEMORY_ADDR_CONTEXT],
            );
            r
        } else if k == 4 {
            let r = builder.gated_difference_extension(
                &vars.local_values[MEMORY_TRACE_SEGMENT],
                &vars.next_values[SORTED_MEMORY_ADDR_SEGMENT],
                &vars.local_values[SORTED_MEMORY_ADDR_SEGMENT],
            );
            r
        } else if k == 5 {
            let r = builder.gated_difference_extension(
                &vars.local_values[MEMORY_TRACE_VIRTUAL],
                &vars.next_values[SORTED_MEMORY_ADDR_VIRTUAL],
                &vars.local_values[SORTED_MEMORY_ADDR_VIRTUAL],
            );
            r
        } else if k == 6 {
            let r = builder.range_check_extension(
                &vars.local_values[col_rc_degree_input(0)],
                &vars.local_values[MEMORY_TRACE_CONTEXT],
                &vars.next_values[SORTED_MEMORY_ADDR_SEGMENT],
                &vars.local_values[SORTED_MEMORY_ADDR_SEGMENT],
                &vars.next_values[SORTED_MEMORY_ADDR_CONTEXT],
                &vars.local_values[SORTED_MEMORY_ADDR_CONTEXT],
            );
            r
        } else if k == 7 {
            let r = builder.range_check_extension(
                &vars.local_values[col_rc_degree_input(1)],
                &vars.local_values[MEMORY_TRACE_SEGMENT],
                &vars.next_values[SORTED_MEMORY_ADDR_VIRTUAL],
                &vars.local_values[SORTED_MEMORY_ADDR_VIRTUAL],
                &vars.next_values[SORTED_MEMORY_ADDR_SEGMENT],
                &vars.local_values[SORTED_MEMORY_ADDR_SEGMENT],
            );
            r
        } else if k == 8 {
            let r = builder.range_check_extension(
                &vars.local_values[col_rc_degree_input(2)],
                &vars.local_values[MEMORY_TRACE_VIRTUAL],
                &vars.next_values[SORTED_MEMORY_TIMESTAMP],
                &vars.local_values[SORTED_MEMORY_TIMESTAMP],
                &vars.next_values[SORTED_MEMORY_ADDR_VIRTUAL],
                &vars.local_values[SORTED_MEMORY_ADDR_VIRTUAL],
            );
            r
        } else if k == 9 {
            let r = builder.two_combined_extension(
                &vars.local_values[MEMORY_TWO_TRACES_COMBINED],
                &vars.local_values[MEMORY_TRACE_CONTEXT],
                &vars.local_values[MEMORY_TRACE_SEGMENT],
            );
            r
        } else if k == 10 {
            let r = builder.all_combined_extension(
                &vars.local_values[MEMORY_ALL_TRACES_COMBINED],
                &vars.local_values[MEMORY_TWO_TRACES_COMBINED],
                &vars.local_values[MEMORY_TRACE_VIRTUAL],
            );
            r
        } else if k == 11 {
            let r = NonnativeTarget(vars.local_values[MEMORY_CURRENT].to_target_array());
            proof {
                assert(vars.local_values[MEMORY_CURRENT as int].defined_in(*old(builder)));
                assert forall|i: int| 0 <= i < r.0.len() implies builder.defines(
                    #[trigger] r.0[i],
                ) by {
                    assert(old(builder).defines(vars.local_values[MEMORY_CURRENT as int].0[i]));
                }
                assert forall|wires: Map<Target, u64>| #[trigger]
                    builder.nonnative_value(wires, r) == old(builder).nonnative_value(
                        wires,
                        vars.local_values[MEMORY_CURRENT as int],
                    ) by {
                    assert(builder.nonnative_value(wires, r) =~= old(builder).nonnative_value(
                        wires,
                        vars.local_values[MEMORY_CURRENT as int],
                    ));
                }
            }
            r
        } else if k == 12 {
            let r = builder.difference_extension(
                &vars.local_values[MEMORY_CURRENT],
                &vars.local_values[SORTED_MEMORY_FROM],
            );
            r
        } else if k == 13 {
            let r = builder.next_current_extension(
                &vars.next_values[MEMORY_CURRENT],
                &vars.local_values[MEMORY_ALL_TRACES_COMBINED],
                &vars.local_values[SORTED_MEMORY_TO],
            );
            r
        } else {
            builder.one_extension()
        }
    };
    r
}

/// Folds the constraints on two adjoining rows of the memory table into
/// the consumer's accumulators.
pub fn eval_memory(
    ctx: &FieldContext,
    vars: &StarkEvaluationVars,
    yield_constr: &mut ConstraintConsumer,
)
    requires
        ctx.modulus > 1,
        ctx.is_elem(ctx.w),
        vars.wf(*ctx),
        old(yield_constr).wf(*ctx),
    ensures
        final(yield_constr).wf(*ctx),
        final(yield_constr).alphas == old(yield_constr).alphas,
        final(yield_constr).z_last == old(yield_constr).z_last,
        final(yield_constr).lagrange_basis_first == old(yield_constr).lagrange_basis_first,
        final(yield_constr).lagrange_basis_last == old(yield_constr).lagrange_basis_last,
        deep(final(yield_constr).constraint_accs@) == spec_memory_accs(
            *ctx,
            old(yield_constr).alphas@,
            deep(old(yield_constr).constraint_accs@),
            deep(vars.local_values@),
            deep(vars.next_values@),
            old(yield_constr).z_last@,
            old(yield_constr).lagrange_basis_first@,
            NUM_MEMORY_CONSTRAINTS as nat,
        ),
{
    let ghost accs = deep(yield_constr.constraint_accs@);
    let mut k: usize = 0;
    while k < NUM_MEMORY_CONSTRAINTS
        invariant
            k <= NUM_MEMORY_CONSTRAINTS,
            ctx.modulus > 1,
            ctx.is_elem(ctx.w),
            vars.wf(*ctx),
            yield_constr.wf(*ctx),
            yield_constr.alphas == old(yield_constr).alphas,
            yield_constr.z_last == old(yield_constr).z_last,
            yield_constr.lagrange_basis_first == old(yield_constr).lagrange_basis_first,
            yield_constr.lagrange_basis_last == old(yield_constr).lagrange_basis_last,
            accs == deep(old(yield_constr).constraint_accs@),
            deep(yield_constr.constraint_accs@) == spec_memory_accs(
                *ctx,
                yield_constr.alphas@,
                accs,
                deep(vars.local_values@),
                deep(vars.next_values@),
                yield_constr.z_last@,
                yield_constr.lagrange_basis_first@,
                k as nat,
            ),
        decreases NUM_MEMORY_CONSTRAINTS - k,
    {
        let constraint = memory_constraint_value(ctx, vars, k);
        if k == FIRST_ROW_CONSTRAINT {
            yield_constr.constraint_first_row(ctx, &constraint);
        } else {
            yield_constr.constraint(ctx, &constraint);
        }
        k = k + 1;
    }
}

/// Builds the circuit that folds the constraints on two adjoining rows of
/// the memory table into the consumer's accumulators. Whatever the wires
/// hold, the accumulators take the values that `eval_memory` computes from
/// the values of the rows.
#[verifier::rlimit(40)]
pub fn eval_memory_recursively(
    builder: &mut CircuitBuilder,
    vars: &StarkEvaluationTargets,
    yield_constr: &mut RecursiveConstraintConsumer,
)
    requires
        old(builder).wf(),
        vars.wf(*old(builder)),
        old(yield_constr).wf(*old(builder)),
    ensures
        final(builder).wf(),
        final(builder).extends(*old(builder)),
        final(builder).keeps(*old(builder)),
        final(yield_constr).wf(*final(builder)),
        final(yield_constr).alphas == old(yield_constr).alphas,
        final(yield_constr).z_last == old(yield_constr).z_last,
        final(yield_constr).lagrange_basis_first == old(yield_constr).lagrange_basis_first,
        final(yield_constr).lagrange_basis_last == old(yield_constr).lagrange_basis_last,
        forall|wires: Map<Target, u64>| #[trigger]
            nonnative_values(*final(builder), wires, final(yield_constr).constraint_accs@)
                == spec_memory_accs(
                final(builder).ctx,
                old(builder).values(wires, old(yield_constr).alphas@),
                nonnative_values(*old(builder), wires, old(yield_constr).constraint_accs@),
                nonnative_values(*old(builder), wires, vars.local_values@),
                nonnative_values(*old(builder), wires, vars.next_values@),
                old(builder).nonnative_value(wires, old(yield_constr).z_last),
                old(builder).nonnative_value(wires, old(yield_constr).lagrange_basis_first),
                NUM_MEMORY_CONSTRAINTS as nat,
            ),
{
    let ghost start = *builder;
    let ghost ctx = builder.ctx;
    let ghost alphas = yield_constr.alphas@;
    let ghost accs = yield_constr.constraint_accs@;
    let ghost z_last = yield_constr.z_last;
    let ghost first = yield_constr.lagrange_basis_first;
    proof {
        builder.lemma_extends_keeps(start);
    }
    let mut k: usize = 0;
    while k < NUM_MEMORY_CONSTRAINTS
        invariant
            k <= NUM_MEMORY_CONSTRAINTS,
            ctx == start.ctx,
            builder.ctx == ctx,
            builder.wf(),
            builder.extends(start),
            builder.keeps(start),
            vars.wf(start),
            old(yield_constr).wf(start),
            alphas == old(yield_constr).alphas@,
            accs == old(yield_constr).constraint_accs@,
            z_last == old(yield_constr).z_last,
            first == old(yield_constr).lagrange_basis_first,
            yield_constr.wf(*builder),
            yield_constr.alphas == old(yield_constr).alphas,
            yield_constr.z_last == old(yield_constr).z_last,
            yield_constr.lagrange_basis_first == old(yield_constr).lagrange_basis_first,
            yield_constr.lagrange_basis_last == old(yield_constr).lagrange_basis_last,
            forall|wires: Map<Target, u64>| #[trigger]
                nonnative_values(*builder, wires, yield_constr.constraint_accs@)
                    == spec_memory_accs(
                    ctx,
                    start.values(wires, alphas),
                    nonnative_values(start, wires, accs),
                    nonnative_values(start, wires, vars.local_values@),
                    nonnative_values(start, wires, vars.next_values@),
                    start.nonnative_value(wires, z_last),
                    start.nonnative_value(wires, first),
                    k as nat,
                ),
        decreases NUM_MEMORY_CONSTRAINTS - k,
    {
        let ghost reached = *builder;
        let ghost accs_reached = yield_constr.constraint_accs@;
        proof {
            lemma_vars_kept(*vars, start, reached);
        }
        let constraint = memory_constraint_target(builder, vars, k);
        let ghost middle = *builder;
        proof {
            middle.lemma_extends_trans(reached, start);
            middle.lemma_extends_keeps(start);
            middle.lemma_extends_keeps(reached);
            yield_constr.lemma_wf_kept(reached, middle);
        }
        if k == FIRST_ROW_CONSTRAINT {
            yield_constr.constraint_first_row(builder, &constraint);
        } else {
            yield_constr.constraint(builder, &constraint);
        }
        proof {
            builder.lemma_extends_trans(middle, start);
            builder.lemma_extends_keeps(start);
            assert forall|wires: Map<Target, u64>| #[trigger]
                nonnative_values(*builder, wires, yield_constr.constraint_accs@)
                    == spec_memory_accs(
                    ctx,
                    start.values(wires, alphas),
                    nonnative_values(start, wires, accs),
                    nonnative_values(start, wires, vars.local_values@),
                    nonnative_values(start, wires, vars.next_values@),
                    start.nonnative_value(wires, z_last),
                    start.nonnative_value(wires, first),
                    (k + 1) as nat,
                ) by {
                lemma_alphas_kept(start, middle, wires, alphas);
                lemma_accs_kept(reached, middle, wires, accs_reached);
                lemma_accs_kept(start, reached, wires, vars.local_values@);
                lemma_accs_kept(start, reached, wires, vars.next_values@);
                middle.lemma_keeps_nonnative(start, wires, z_last);
                middle.lemma_keeps_nonnative(start, wires, first);
                assert(nonnative_values(reached, wires, accs_reached) == spec_memory_accs(
                    ctx,
                    start.values(wires, alphas),
                    nonnative_values(start, wires, accs),
                    nonnative_values(start, wires, vars.local_values@),
                    nonnative_values(start, wires, vars.next_values@),
                    start.nonnative_value(wires, z_last),
                    start.nonnative_value(wires, first),
                    k as nat,
                ));
            }
        }
        k = k + 1;
    }
}

/// Rows of a builder are rows of every builder that keeps its values.
pub proof fn lemma_vars_kept(
    vars: StarkEvaluationTargets,
    before: CircuitBuilder,
    after: CircuitBuilder,
)
    requires
        vars.wf(before),
        after.keeps(before),
        after.ctx == before.ctx,
    ensures
        vars.wf(after),
{
    assert forall|i: int| 0 <= i < NUM_COLUMNS implies (#[trigger] vars.local_values[i]).defined_in(
        after,
    ) by {
        after.lemma_keeps_nonnative(before, Map::empty(), vars.local_values[i]);
    }
    assert forall|i: int| 0 <= i < NUM_COLUMNS implies (#[trigger] vars.next_values[i]).defined_in(
        after,
    ) by {
        after.lemma_keeps_nonnative(before, Map::empty(), vars.next_values[i]);
    }
}

} // verus!
