//! A builder of arithmetic circuits over the base field, with the value
//! that each of its targets takes under an assignment of the wires.

use crate::field::FieldContext;
use crate::gates::GateInstance;
use crate::target::{Target, Wire};
use crate::witness::PartitionWitness;
use vstd::prelude::*;

verus! {

/// How a virtual target gets its value.
#[derive(Clone, Copy, Debug)]
pub enum Operation {
    /// The value is handed in from outside, as that of a wire is.
    Input,
    Constant(u64),
    Add(Target, Target),
    Sub(Target, Target),
    Mul(Target, Target),
    /// The low 32 bits of the operand's value.
    Low32(Target),
    /// The operand's value without its low 32 bits, shifted down by them.
    High32(Target),
}

/// The value of an operand of the operation at position `bound`: that of a
/// wire, which the assignment `wires` gives, or of a virtual target defined
/// before `bound`.
pub open spec fn operand_value(
    ctx: FieldContext,
    operations: Seq<Operation>,
    wires: Map<Target, u64>,
    t: Target,
    bound: int,
) -> u64
    decreases bound, 0int,
{
    match t {
        Target::Wire(w) => wires[t],
        Target::VirtualTarget { index } => if index < bound {
            virtual_value(ctx, operations, wires, index as int)
        } else {
            0
        },
    }
}

/// The value that the operation at position `index` defines.
pub open spec fn virtual_value(
    ctx: FieldContext,
    operations: Seq<Operation>,
    wires: Map<Target, u64>,
    index: int,
) -> u64
    decreases index, 1int,
{
    if index < 0 || index >= operations.len() {
        0
    } else {
        match operations[index] {
            Operation::Input => wires[Target::VirtualTarget { index: index as usize }],
            Operation::Constant(c) => c,
            Operation::Add(a, b) => ctx.spec_add(
                operand_value(ctx, operations, wires, a, index),
                operand_value(ctx, operations, wires, b, index),
            ),
            Operation::Sub(a, b) => ctx.spec_sub(
                operand_value(ctx, operations, wires, a, index),
                operand_value(ctx, operations, wires, b, index),
            ),
            Operation::Mul(a, b) => ctx.spec_mul(
                operand_value(ctx, operations, wires, a, index),
                operand_value(ctx, operations, wires, b, index),
            ),
            Operation::Low32(a) => operand_value(ctx, operations, wires, a, index) % 0x1_0000_0000,
            Operation::High32(a) => operand_value(ctx, operations, wires, a, index) / 0x1_0000_0000,
        }
    }
}

/// Operations appended to a circuit leave the values defined before as they were.
pub proof fn lemma_value_stable(
    ctx: FieldContext,
    before: Seq<Operation>,
    after: Seq<Operation>,
    wires: Map<Target, u64>,
    index: int,
)
    requires
        before.len() <= after.len(),
        forall|i: int| 0 <= i < before.len() ==> before[i] == after[i],
        0 <= index < before.len(),
    ensures
        virtual_value(ctx, after, wires, index) == virtual_value(ctx, before, wires, index),
    decreases index, 1int,
{
    let op = before[index];
    match op {
        Operation::Input => {},
        Operation::Constant(c) => {},
        Operation::Add(a, b) => {
            lemma_operand_stable(ctx, before, after, wires, a, index);
            lemma_operand_stable(ctx, before, after, wires, b, index);
        },
        Operation::Sub(a, b) => {
            lemma_operand_stable(ctx, before, after, wires, a, index);
            lemma_operand_stable(ctx, before, after, wires, b, index);
        },
        Operation::Mul(a, b) => {
            lemma_operand_stable(ctx, before, after, wires, a, index);
            lemma_operand_stable(ctx, before, after, wires, b, index);
        },
        Operation::Low32(a) => {
            lemma_operand_stable(ctx, before, after, wires, a, index);
        },
        Operation::High32(a) => {
            lemma_operand_stable(ctx, before, after, wires, a, index);
        },
    }
}

proof fn lemma_operand_stable(
    ctx: FieldContext,
    before: Seq<Operation>,
    after: Seq<Operation>,
    wires: Map<Target, u64>,
    t: Target,
    bound: int,
)
    requires
        before.len() <= after.len(),
        forall|i: int| 0 <= i < before.len() ==> before[i] == after[i],
        0 <= bound <= before.len(),
    ensures
        operand_value(ctx, after, wires, t, bound) == operand_value(ctx, before, wires, t, bound),
    decreases bound, 0int,
{
    match t {
        Target::Wire(w) => {},
        Target::VirtualTarget { index } => {
            if index < bound {
                lemma_value_stable(ctx, before, after, wires, index as int);
            }
        },
    }
}

/// A circuit under construction: the operations that define its virtual
/// targets, the gates placed on its rows, and the pairs of targets that
/// must carry equal values.
pub struct CircuitBuilder {
    pub ctx: FieldContext,
    pub operations: Vec<Operation>,
    pub gate_instances: Vec<GateInstance>,
    pub copy_constraints: Vec<(Target, Target)>,
}

impl CircuitBuilder {
    /// Whether the builder gives `t` a value: every wire, and every virtual
    /// target that an operation defines.
    pub open spec fn defines(self, t: Target) -> bool {
        match t {
            Target::Wire(w) => true,
            Target::VirtualTarget { index } => index < self.operations.len(),
        }
    }

    /// The value of `t` under the assignment `wires`.
    pub open spec fn value(self, wires: Map<Target, u64>, t: Target) -> u64 {
        operand_value(self.ctx, self.operations@, wires, t, self.operations.len() as int)
    }

    /// The values of several targets.
    pub open spec fn values(self, wires: Map<Target, u64>, ts: Seq<Target>) -> Seq<u64> {
        Seq::new(ts.len(), |i: int| self.value(wires, ts[i]))
    }

    /// Whether `self` is `before` with operations, gates and copy
    /// constraints appended: every target that `before` defines is defined
    /// still, with the same value.
    pub open spec fn extends(self, before: CircuitBuilder) -> bool {
        &&& self.ctx == before.ctx
        &&& before.operations.len() <= self.operations.len()
        &&& forall|i: int|
            0 <= i < before.operations.len() ==> self.operations[i] == before.operations[i]
        &&& before.gate_instances.len() <= self.gate_instances.len()
        &&& forall|i: int|
            0 <= i < before.gate_instances.len() ==> self.gate_instances[i]
                == before.gate_instances[i]
        &&& before.copy_constraints.len() <= self.copy_constraints.len()
        &&& forall|i: int|
            0 <= i < before.copy_constraints.len() ==> self.copy_constraints[i]
                == before.copy_constraints[i]
    }

    /// Whether every target that `before` defines is defined here, with
    /// the value it had there, whatever the wires hold.
    pub open spec fn keeps(self, before: CircuitBuilder) -> bool {
        forall|wires: Map<Target, u64>, t: Target|
            #![trigger self.value(wires, t)]
            before.defines(t) ==> self.defines(t) && self.value(wires, t) == before.value(
                wires,
                t,
            )
    }

    /// A builder that extends another keeps its values.
    pub proof fn lemma_extends_keeps(self, before: CircuitBuilder)
        requires
            self.extends(before),
        ensures
            self.keeps(before),
    {
        assert forall|wires: Map<Target, u64>, t: Target|
            #![trigger self.value(wires, t)]
            before.defines(t) implies self.defines(t) && self.value(wires, t) == before.value(
            wires,
            t,
        ) by {
            self.lemma_extends_keeps_value(before, wires, t);
        }
    }

    /// The builder's invariant: a field with arithmetic.
    pub open spec fn wf(self) -> bool {
        self.ctx.modulus > 1 && self.ctx.degree >= 1 && self.ctx.is_elem(self.ctx.w)
    }

    /// A target of a builder keeps its value in every builder that extends it.
    pub proof fn lemma_extends_keeps_value(
        self,
        before: CircuitBuilder,
        wires: Map<Target, u64>,
        t: Target,
    )
        requires
            self.extends(before),
            before.defines(t),
        ensures
            self.defines(t),
            self.value(wires, t) == before.value(wires, t),
    {
        match t {
            Target::Wire(w) => {},
            Target::VirtualTarget { index } => {
                lemma_value_stable(
                    self.ctx,
                    before.operations@,
                    self.operations@,
                    wires,
                    index as int,
                );
            },
        }
    }

    /// Extension is transitive.
    pub proof fn lemma_extends_trans(self, middle: CircuitBuilder, before: CircuitBuilder)
        requires
            self.extends(middle),
            middle.extends(before),
        ensures
            self.extends(before),
    {
    }

    /// An empty circuit over the given field.
    pub fn new(ctx: FieldContext) -> (r: CircuitBuilder)
        requires
            ctx.wf(),
        ensures
            r.wf(),
            r.ctx == ctx,
            r.operations.len() == 0,
            r.gate_instances.len() == 0,
            r.copy_constraints.len() == 0,
    {
        CircuitBuilder {
            ctx,
            operations: Vec::new(),
            gate_instances: Vec::new(),
            copy_constraints: Vec::new(),
        }
    }

    /// Appends an operation and returns the target that it defines.
    fn push_operation(&mut self, op: Operation) -> (t: Target)
        requires
            old(self).wf(),
        ensures
            final(self).wf(),
            final(self).extends(*old(self)),
            final(self).operations.len() == old(self).operations.len() + 1,
            final(self).operations[old(self).operations.len() as int] == op,
            final(self).gate_instances == old(self).gate_instances,
            final(self).copy_constraints == old(self).copy_constraints,
            t == (Target::VirtualTarget { index: old(self).operations.len() }),
            final(self).defines(t),
            final(self).keeps(*old(self)),
    {
        let ghost before = *self;
        let index = self.operations.len();
        self.operations.push(op);
        proof {
            self.lemma_extends_keeps(before);
        }
        Target::VirtualTarget { index }
    }

    /// A target whose value is handed in from outside.
    pub fn add_virtual_target(&mut self) -> (t: Target)
        requires
            old(self).wf(),
        ensures
            final(self).wf(),
            final(self).extends(*old(self)),
            final(self).keeps(*old(self)),
            final(self).gate_instances == old(self).gate_instances,
            final(self).copy_constraints == old(self).copy_constraints,
            final(self).operations.len() == old(self).operations.len() + 1,
            t == (Target::VirtualTarget { index: old(self).operations.len() }),
            final(self).defines(t),
            !old(self).defines(t),
            forall|wires: Map<Target, u64>| #[trigger] final(self).value(wires, t) == wires[t],
    {
        self.push_operation(Operation::Input)
    }

    /// A target with the constant value `c`.
    pub fn constant(&mut self, c: u64) -> (t: Target)
        requires
            old(self).wf(),
            old(self).ctx.is_elem(c),
        ensures
            final(self).wf(),
            final(self).extends(*old(self)),
            final(self).keeps(*old(self)),
            final(self).gate_instances == old(self).gate_instances,
            final(self).copy_constraints == old(self).copy_constraints,
            final(self).operations.len() == old(self).operations.len() + 1,
            t == (Target::VirtualTarget { index: old(self).operations.len() }),
            final(self).defines(t),
            !old(self).defines(t),
            forall|wires: Map<Target, u64>| #[trigger] final(self).value(wires, t) == c,
    {
        self.push_operation(Operation::Constant(c))
    }

    /// A target with the value zero.
    pub fn zero(&mut self) -> (t: Target)
        requires
            old(self).wf(),
        ensures
            final(self).wf(),
            final(self).extends(*old(self)),
            final(self).keeps(*old(self)),
            final(self).gate_instances == old(self).gate_instances,
            final(self).copy_constraints == old(self).copy_constraints,
            final(self).operations.len() == old(self).operations.len() + 1,
            t == (Target::VirtualTarget { index: old(self).operations.len() }),
            final(self).defines(t),
            forall|wires: Map<Target, u64>| #[trigger] final(self).value(wires, t) == 0,
    {
        self.constant(0)
    }

    /// A target with the value one.
    pub fn one(&mut self) -> (t: Target)
        requires
            old(self).wf(),
        ensures
            final(self).wf(),
            final(self).extends(*old(self)),
            final(self).keeps(*old(self)),
            final(self).gate_instances == old(self).gate_instances,
            final(self).copy_constraints == old(self).copy_constraints,
            final(self).operations.len() == old(self).operations.len() + 1,
            t == (Target::VirtualTarget { index: old(self).operations.len() }),
            final(self).defines(t),
            forall|wires: Map<Target, u64>| #[trigger] final(self).value(wires, t) == 1,
    {
        self.constant(1)
    }

    /// A target whose value is the sum of the values of `a` and `b`.
    pub fn add(&mut self, a: Target, b: Target) -> (t: Target)
        requires
            old(self).wf(),
            old(self).defines(a),
            old(self).defines(b),
        ensures
            final(self).wf(),
            final(self).extends(*old(self)),
            final(self).keeps(*old(self)),
            final(self).gate_instances == old(self).gate_instances,
            final(self).copy_constraints == old(self).copy_constraints,
            final(self).operations.len() == old(self).operations.len() + 1,
            t == (Target::VirtualTarget { index: old(self).operations.len() }),
            final(self).defines(t),
            forall|wires: Map<Target, u64>| #[trigger]
                final(self).value(wires, t) == final(self).ctx.spec_add(
                    old(self).value(wires, a),
                    old(self).value(wires, b),
                ),
    {
        let ghost before = *self;
        let t = self.push_operation(Operation::Add(a, b));
        proof {
            assert forall|wires: Map<Target, u64>| #[trigger]
                self.value(wires, t) == self.ctx.spec_add(
                    before.value(wires, a),
                    before.value(wires, b),
                ) by {
                lemma_operand_stable(
                    self.ctx,
                    before.operations@,
                    self.operations@,
                    wires,
                    a,
                    before.operations.len() as int,
                );
                lemma_operand_stable(
                    self.ctx,
                    before.operations@,
                    self.operations@,
                    wires,
                    b,
                    before.operations.len() as int,
                );
            }
        }
        t
    }

    /// A target whose value is the difference of the values of `a` and `b`.
    pub fn sub(&mut self, a: Target, b: Target) -> (t: Target)
        requires
            old(self).wf(),
            old(self).defines(a),
            old(self).defines(b),
        ensures
            final(self).wf(),
            final(self).extends(*old(self)),
            final(self).keeps(*old(self)),
            final(self).gate_instances == old(self).gate_instances,
            final(self).copy_constraints == old(self).copy_constraints,
            final(self).operations.len() == old(self).operations.len() + 1,
            t == (Target::VirtualTarget { index: old(self).operations.len() }),
            final(self).defines(t),
            forall|wires: Map<Target, u64>| #[trigger]
                final(self).value(wires, t) == final(self).ctx.spec_sub(
                    old(self).value(wires, a),
                    old(self).value(wires, b),
                ),
    {
        let ghost before = *self;
        let t = self.push_operation(Operation::Sub(a, b));
        proof {
            assert forall|wires: Map<Target, u64>| #[trigger]
                self.value(wires, t) == self.ctx.spec_sub(
                    before.value(wires, a),
                    before.value(wires, b),
                ) by {
                lemma_operand_stable(
                    self.ctx,
                    before.operations@,
                    self.operations@,
                    wires,
                    a,
                    before.operations.len() as int,
                );
                lemma_operand_stable(
                    self.ctx,
                    before.operations@,
                    self.operations@,
                    wires,
                    b,
                    before.operations.len() as int,
                );
            }
        }
        t
    }

    /// A target whose value is the product of the values of `a` and `b`.
    pub fn mul(&mut self, a: Target, b: Target) -> (t: Target)
        requires
            old(self).wf(),
            old(self).defines(a),
            old(self).defines(b),
        ensures
            final(self).wf(),
            final(self).extends(*old(self)),
            final(self).keeps(*old(self)),
            final(self).gate_instances == old(self).gate_instances,
            final(self).copy_constraints == old(self).copy_constraints,
            final(self).operations.len() == old(self).operations.len() + 1,
            t == (Target::VirtualTarget { index: old(self).operations.len() }),
            final(self).defines(t),
            forall|wires: Map<Target, u64>| #[trigger]
                final(self).value(wires, t) == final(self).ctx.spec_mul(
                    old(self).value(wires, a),
                    old(self).value(wires, b),
                ),
    {
        let ghost before = *self;
        let t = self.push_operation(Operation::Mul(a, b));
        proof {
            assert forall|wires: Map<Target, u64>| #[trigger]
                self.value(wires, t) == self.ctx.spec_mul(
                    before.value(wires, a),
                    before.value(wires, b),
                ) by {
                lemma_operand_stable(
                    self.ctx,
                    before.operations@,
                    self.operations@,
                    wires,
                    a,
                    before.operations.len() as int,
                );
                lemma_operand_stable(
                    self.ctx,
                    before.operations@,
                    self.operations@,
                    wires,
                    b,
                    before.operations.len() as int,
                );
            }
        }
        t
    }

    /// A target whose value is the low 32 bits of the value of `a`.
    pub fn low_32(&mut self, a: Target) -> (t: Target)
        requires
            old(self).wf(),
            old(self).defines(a),
        ensures
            final(self).wf(),
            final(self).extends(*old(self)),
            final(self).keeps(*old(self)),
            final(self).gate_instances == old(self).gate_instances,
            final(self).copy_constraints == old(self).copy_constraints,
            final(self).operations.len() == old(self).operations.len() + 1,
            t == (Target::VirtualTarget { index: old(self).operations.len() }),
            final(self).defines(t),
            forall|wires: Map<Target, u64>| #[trigger]
                final(self).value(wires, t) == old(self).value(wires, a) % 0x1_0000_0000,
    {
        let ghost before = *self;
        let t = self.push_operation(Operation::Low32(a));
        proof {
            assert forall|wires: Map<Target, u64>| #[trigger]
                self.value(wires, t) == before.value(wires, a) % 0x1_0000_0000 by {
                lemma_operand_stable(
                    self.ctx,
                    before.operations@,
                    self.operations@,
                    wires,
                    a,
                    before.operations.len() as int,
                );
            }
        }
        t
    }

    /// A target whose value is that of `a` without its low 32 bits.
    pub fn high_32(&mut self, a: Target) -> (t: Target)
        requires
            old(self).wf(),
            old(self).defines(a),
        ensures
            final(self).wf(),
            final(self).extends(*old(self)),
            final(self).keeps(*old(self)),
            final(self).gate_instances == old(self).gate_instances,
            final(self).copy_constraints == old(self).copy_constraints,
            final(self).operations.len() == old(self).operations.len() + 1,
            t == (Target::VirtualTarget { index: old(self).operations.len() }),
            final(self).defines(t),
            forall|wires: Map<Target, u64>| #[trigger]
                final(self).value(wires, t) == old(self).value(wires, a) / 0x1_0000_0000,
    {
        let ghost before = *self;
        let t = self.push_operation(Operation::High32(a));
        proof {
            assert forall|wires: Map<Target, u64>| #[trigger]
                self.value(wires, t) == before.value(wires, a) / 0x1_0000_0000 by {
                lemma_operand_stable(
                    self.ctx,
                    before.operations@,
                    self.operations@,
                    wires,
                    a,
                    before.operations.len() as int,
                );
            }
        }
        t
    }

    /// Places a gate on the next free row and returns the row.
    pub fn add_gate(&mut self, gate: GateInstance) -> (row: usize)
        requires
            old(self).wf(),
        ensures
            final(self).wf(),
            final(self).extends(*old(self)),
            final(self).operations == old(self).operations,
            final(self).copy_constraints == old(self).copy_constraints,
            row == old(self).gate_instances.len(),
            final(self).gate_instances@ == old(self).gate_instances@.push(gate),
    {
        let row = self.gate_instances.len();
        self.gate_instances.push(gate);
        row
    }

    /// Demands that `x` and `y` carry the same value.
    pub fn connect(&mut self, x: Target, y: Target)
        requires
            old(self).wf(),
        ensures
            final(self).wf(),
            final(self).extends(*old(self)),
            final(self).operations == old(self).operations,
            final(self).gate_instances == old(self).gate_instances,
            final(self).copy_constraints@ == old(self).copy_constraints@.push((x, y)),
    {
        self.copy_constraints.push((x, y));
    }

    /// The number of gates placed.
    pub fn num_gates(&self) -> (r: usize)
        ensures
            r == self.gate_instances.len(),
    {
        self.gate_instances.len()
    }
}

impl PartitionWitness {
    /// The assignment that gives every target the value that the witness
    /// holds for it, and zero where it holds none.
    pub open spec fn assignment(self) -> Map<Target, u64> {
        Map::new(
            |t: Target| true,
            |t: Target|
                match self.spec_get(t) {
                    Some(v) => v,
                    None => 0,
                },
        )
    }
}

impl CircuitBuilder {
    /// The value of an operand of the operation at position `bound`, from
    /// the values computed for the operations before it.
    fn evaluate_operand(
        &self,
        witness: &PartitionWitness,
        computed: &Vec<u64>,
        t: Target,
        bound: usize,
    ) -> (r: u64)
        requires
            bound <= self.operations.len(),
            computed.len() == bound,
            forall|i: int|
                0 <= i < bound ==> computed[i] == virtual_value(
                    self.ctx,
                    self.operations@,
                    witness.assignment(),
                    i,
                ),
        ensures
            r == operand_value(self.ctx, self.operations@, witness.assignment(), t, bound as int),
    {
        match t {
            Target::Wire(w) => match witness.try_get_target(t) {
                Some(v) => v,
                None => 0,
            },
            Target::VirtualTarget { index } => if index < bound {
                computed[index]
            } else {
                0
            },
        }
    }

    /// The value that every operation defines under the witness: wires and
    /// inputs take the values that the witness holds, and zero where it
    /// holds none.
    pub fn evaluate_all(&self, witness: &PartitionWitness) -> (r: Vec<u64>)
        requires
            self.ctx.modulus > 0,
        ensures
            r.len() == self.operations.len(),
            forall|i: int|
                0 <= i < r.len() ==> #[trigger] r[i] == self.value(
                    witness.assignment(),
                    Target::VirtualTarget { index: i as usize },
                ),
    {
        let mut computed: Vec<u64> = Vec::new();
        let mut index: usize = 0;
        while index < self.operations.len()
            invariant
                index <= self.operations.len(),
                self.ctx.modulus > 0,
                computed.len() == index,
                forall|i: int|
                    0 <= i < index ==> computed[i] == virtual_value(
                        self.ctx,
                        self.operations@,
                        witness.assignment(),
                        i,
                    ),
            decreases self.operations.len() - index,
        {
            let value = match self.operations[index] {
                Operation::Input => match witness.try_get_target(
                    Target::VirtualTarget { index },
                ) {
                    Some(v) => v,
                    None => 0,
                },
                Operation::Constant(c) => c,
                Operation::Add(a, b) => {
                    let x = self.evaluate_operand(witness, &computed, a, index);
                    let y = self.evaluate_operand(witness, &computed, b, index);
                    (((x as u128) + (y as u128)) % (self.ctx.modulus as u128)) as u64
                },
                Operation::Sub(a, b) => {
                    let x = self.evaluate_operand(witness, &computed, a, index);
                    let y = self.evaluate_operand(witness, &computed, b, index);
                    let m = self.ctx.modulus as u128;
                    proof {
                        let xi = x as int;
                        let yi = y as int;
                        let mi = self.ctx.modulus as int;
                        vstd::arithmetic::div_mod::lemma_sub_mod_noop(xi, yi, mi);
                        vstd::arithmetic::div_mod::lemma_mod_multiples_vanish(
                            1,
                            xi % mi - yi % mi,
                            mi,
                        );
                    }
                    ((((x as u128) % m) + m - ((y as u128) % m)) % m) as u64
                },
                Operation::Mul(a, b) => {
                    let x = self.evaluate_operand(witness, &computed, a, index);
                    let y = self.evaluate_operand(witness, &computed, b, index);
                    proof {
                        assert(x * y <= 0xffff_ffff_ffff_ffff * 0xffff_ffff_ffff_ffff)
                            by (nonlinear_arith)
                            requires
                                0 <= x <= 0xffff_ffff_ffff_ffff,
                                0 <= y <= 0xffff_ffff_ffff_ffff,
                        ;
                    }
                    (((x as u128) * (y as u128)) % (self.ctx.modulus as u128)) as u64
                },
                Operation::Low32(a) => {
                    let x = self.evaluate_operand(witness, &computed, a, index);
                    x % 0x1_0000_0000
                },
                Operation::High32(a) => {
                    let x = self.evaluate_operand(witness, &computed, a, index);
                    x / 0x1_0000_0000
                },
            };
            computed.push(value);
            index = index + 1;
        }
        computed
    }

    /// The value of a target under the witness.
    pub fn evaluate(&self, witness: &PartitionWitness, t: Target) -> (r: u64)
        requires
            self.ctx.modulus > 0,
        ensures
            r == self.value(witness.assignment(), t),
    {
        let computed = self.evaluate_all(witness);
        match t {
            Target::Wire(w) => match witness.try_get_target(t) {
                Some(v) => v,
                None => 0,
            },
            Target::VirtualTarget { index } => if index < computed.len() {
                computed[index]
            } else {
                0
            },
        }
    }
}

} // verus!
