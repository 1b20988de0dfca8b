//! Gadgets that place multiplication gates and wire their operands in.

use crate::circuit_builder::CircuitBuilder;
use crate::gates::{wire_at, GateInstance, MulBigUintGate, MulNonNativeGate};
use crate::target::Target;
use crate::vars::{BigUintTarget, U32Target};
use crate::witness::PartitionWitness;
use vstd::prelude::*;

verus! {

/// An element of a field other than the circuit's own, as the limbs of its
/// canonical representative.
#[derive(Debug)]
pub struct NonNativeTarget {
    pub value: BigUintTarget,
}

/// The number of 32-bit limbs that hold an element of a field of `bits` bits.
pub open spec fn spec_num_nonnative_limbs(bits: usize) -> int {
    (bits + 31) / 32
}

/// The pairs that tie each of `ts` to the wire of `row` at the same
/// position from column `start` on.
pub open spec fn connections(ts: Seq<Target>, row: usize, start: int) -> Seq<(Target, Target)> {
    Seq::new(ts.len(), |i: int| (ts[i], wire_at(row, start + i)))
}

/// The pairs that tie two big integers together limb by limb. Where one has
/// more limbs than the other, its upper limbs are tied to `zero`.
pub open spec fn limb_pairs(lhs: Seq<Target>, rhs: Seq<Target>, zero: Target) -> Seq<
    (Target, Target),
> {
    Seq::new(
        if lhs.len() >= rhs.len() {
            lhs.len()
        } else {
            rhs.len()
        },
        |i: int|
            if i < lhs.len() && i < rhs.len() {
                (lhs[i], rhs[i])
            } else if i < lhs.len() {
                (lhs[i], zero)
            } else {
                (rhs[i], zero)
            },
    )
}

/// The wires of `row` at `count` columns from `start` on, as limbs.
fn limb_wires(row: usize, start: usize, count: usize) -> (r: BigUintTarget)
    requires
        start + count <= usize::MAX,
    ensures
        r.targets() == Seq::new(count as nat, |i: int| wire_at(row, start + i)),
{
    let mut limbs: Vec<U32Target> = Vec::new();
    let mut i: usize = 0;
    while i < count
        invariant
            i <= count,
            start + count <= usize::MAX,
            limbs.len() == i,
            forall|t: int| 0 <= t < i ==> (#[trigger] limbs[t]).0 == wire_at(row, start + t),
        decreases count - i,
    {
        limbs.push(U32Target(Target::wire(row, start + i)));
        i = i + 1;
    }
    let r = BigUintTarget { limbs };
    proof {
        assert(r.targets() =~= Seq::new(count as nat, |i: int| wire_at(row, start + i)));
    }
    r
}

impl CircuitBuilder {
    /// The number of 32-bit limbs that hold an element of a field of `bits` bits.
    pub fn num_nonnative_limbs(bits: usize) -> (r: usize)
        ensures
            r == spec_num_nonnative_limbs(bits),
    {
        bits / 32 + (if bits % 32 == 0 {
            0
        } else {
            1
        })
    }

    /// A big integer of `num_limbs` limbs whose values are handed in from outside.
    pub fn add_virtual_biguint_target(&mut self, num_limbs: usize) -> (r: BigUintTarget)
        requires
            old(self).wf(),
        ensures
            final(self).wf(),
            final(self).extends(*old(self)),
            final(self).gate_instances == old(self).gate_instances,
            final(self).copy_constraints == old(self).copy_constraints,
            r.limbs.len() == num_limbs,
            final(self).operations.len() == old(self).operations.len() + num_limbs,
            forall|i: int|
                0 <= i < num_limbs ==> #[trigger] r.targets()[i] == (Target::VirtualTarget {
                    index: (old(self).operations.len() + i) as usize,
                }),
            forall|wires: Map<Target, u64>, i: int|
                0 <= i < num_limbs ==> #[trigger] final(self).value(wires, r.targets()[i])
                    == wires[r.targets()[i]],
    {
        let ghost start = *self;
        let mut limbs: Vec<U32Target> = Vec::new();
        let mut i: usize = 0;
        while i < num_limbs
            invariant
                i <= num_limbs,
                self.wf(),
                self.extends(start),
                self.gate_instances == start.gate_instances,
                self.copy_constraints == start.copy_constraints,
                self.operations.len() == start.operations.len() + i,
                limbs.len() == i,
                forall|t: int|
                    0 <= t < i ==> (#[trigger] limbs[t]).0 == (Target::VirtualTarget {
                        index: (start.operations.len() + t) as usize,
                    }),
                forall|wires: Map<Target, u64>, t: int|
                    0 <= t < i ==> #[trigger] self.value(wires, limbs[t].0) == wires[limbs[t].0],
            decreases num_limbs - i,
        {
            let ghost before = *self;
            let t = self.add_virtual_target();
            proof {
                self.lemma_extends_trans(before, start);
                assert forall|wires: Map<Target, u64>, k: int| 0 <= k < i + 1 implies #[trigger] self.value(
                    wires,
                    limbs@.push(U32Target(t))[k].0,
                ) == wires[limbs@.push(U32Target(t))[k].0] by {
                    if k < i {
                        assert(before.defines(limbs[k].0));
                    }
                }
            }
            limbs.push(U32Target(t));
            i = i + 1;
        }
        BigUintTarget { limbs }
    }

    /// A big integer whose limbs are the given constants.
    pub fn constant_biguint(&mut self, limbs: &Vec<u32>) -> (r: BigUintTarget)
        requires
            old(self).wf(),
            old(self).ctx.modulus > 0xffff_ffff,
        ensures
            final(self).wf(),
            final(self).extends(*old(self)),
            final(self).gate_instances == old(self).gate_instances,
            final(self).copy_constraints == old(self).copy_constraints,
            r.limbs.len() == limbs.len(),
            forall|i: int| 0 <= i < limbs.len() ==> final(self).defines(#[trigger] r.targets()[i]),
            forall|wires: Map<Target, u64>, i: int|
                0 <= i < limbs.len() ==> #[trigger] final(self).value(wires, r.targets()[i])
                    == limbs[i] as u64,
    {
        let ghost start = *self;
        let mut targets: Vec<U32Target> = Vec::new();
        let mut i: usize = 0;
        while i < limbs.len()
            invariant
                i <= limbs.len(),
                self.wf(),
                self.ctx.modulus > 0xffff_ffff,
                self.extends(start),
                self.gate_instances == start.gate_instances,
                self.copy_constraints == start.copy_constraints,
                targets.len() == i,
                forall|t: int| 0 <= t < i ==> self.defines((#[trigger] targets[t]).0),
                forall|wires: Map<Target, u64>, t: int|
                    0 <= t < i ==> #[trigger] self.value(wires, targets[t].0) == limbs[t] as u64,
            decreases limbs.len() - i,
        {
            let ghost before = *self;
            let t = self.constant(limbs[i] as u64);
            proof {
                self.lemma_extends_trans(before, start);
                assert forall|wires: Map<Target, u64>, k: int| 0 <= k < i + 1 implies #[trigger] self.value(
                    wires,
                    targets@.push(U32Target(t))[k].0,
                ) == limbs[k] as u64 by {
                    if k < i {
                        assert(before.defines(targets[k].0));
                    }
                }
                assert forall|k: int| 0 <= k < i implies self.defines(
                    (#[trigger] targets[k]).0,
                ) by {
                    assert(before.defines(targets[k].0));
                    assert(self.value(Map::empty(), targets[k].0) == before.value(
                        Map::empty(),
                        targets[k].0,
                    ));
                }
            }
            targets.push(U32Target(t));
            i = i + 1;
        }
        BigUintTarget { limbs: targets }
    }

    /// Demands that two big integers carry the same value: limb by limb,
    /// and zero in the upper limbs that only one of them has.
    pub fn connect_biguint(&mut self, lhs: &BigUintTarget, rhs: &BigUintTarget)
        requires
            old(self).wf(),
        ensures
            final(self).wf(),
            final(self).extends(*old(self)),
            final(self).gate_instances == old(self).gate_instances,
            lhs.limbs.len() == rhs.limbs.len() ==> final(self).operations == old(self).operations,
            final(self).copy_constraints@ == old(self).copy_constraints@ + limb_pairs(
                lhs.targets(),
                rhs.targets(),
                Target::VirtualTarget { index: old(self).operations.len() },
            ),
    {
        let ghost start = *self;
        let ghost zero_target = Target::VirtualTarget { index: start.operations.len() };
        let ghost pairs = limb_pairs(lhs.targets(), rhs.targets(), zero_target);
        let a = lhs.limbs.len();
        let b = rhs.limbs.len();
        let min_limbs = if a <= b {
            a
        } else {
            b
        };
        let mut i: usize = 0;
        proof {
            assert(self.copy_constraints@ =~= start.copy_constraints@ + pairs.take(0));
        }
        while i < min_limbs
            invariant
                i <= min_limbs,
                min_limbs <= a,
                min_limbs <= b,
                a == lhs.limbs.len(),
                b == rhs.limbs.len(),
                pairs == limb_pairs(lhs.targets(), rhs.targets(), zero_target),
                self.wf(),
                self.extends(start),
                self.gate_instances == start.gate_instances,
                self.operations == start.operations,
                self.copy_constraints@ == start.copy_constraints@ + pairs.take(i as int),
            decreases min_limbs - i,
        {
            let ghost before = *self;
            self.connect(lhs.limbs[i].0, rhs.limbs[i].0);
            proof {
                self.lemma_extends_trans(before, start);
                assert(pairs.take(i + 1) =~= pairs.take(i as int).push(pairs[i as int]));
                assert(self.copy_constraints@ =~= start.copy_constraints@ + pairs.take(i + 1));
            }
            i = i + 1;
        }
        if a != b {
            let ghost before = *self;
            let zero = self.zero();
            proof {
                self.lemma_extends_trans(before, start);
            }
            let longest = if a >= b {
                a
            } else {
                b
            };
            let mut j: usize = min_limbs;
            while j < longest
                invariant
                    min_limbs <= j <= longest,
                    a == lhs.limbs.len(),
                    b == rhs.limbs.len(),
                    min_limbs == (if a <= b {
                        a
                    } else {
                        b
                    }),
                    longest == (if a >= b {
                        a
                    } else {
                        b
                    }),
                    zero == zero_target,
                    pairs == limb_pairs(lhs.targets(), rhs.targets(), zero_target),
                    self.wf(),
                    self.extends(start),
                    self.gate_instances == start.gate_instances,
                    self.copy_constraints@ == start.copy_constraints@ + pairs.take(j as int),
                decreases longest - j,
            {
                let ghost before = *self;
                if j < a {
                    self.connect(lhs.limbs[j].0, zero);
                } else {
                    self.connect(rhs.limbs[j].0, zero);
                }
                proof {
                    self.lemma_extends_trans(before, start);
                    assert(pairs.take(j + 1) =~= pairs.take(j as int).push(pairs[j as int]));
                    assert(self.copy_constraints@ =~= start.copy_constraints@ + pairs.take(
                        j + 1,
                    ));
                }
                j = j + 1;
            }
            proof {
                assert(pairs.take(longest as int) =~= pairs);
            }
        } else {
            proof {
                assert(pairs.take(min_limbs as int) =~= pairs);
            }
        }
    }

    /// The big integer as the representative of an element of another field.
    pub fn biguint_to_nonnative(&self, x: BigUintTarget) -> (r: NonNativeTarget)
        ensures
            r.value == x,
    {
        NonNativeTarget { value: x }
    }

    /// Demands that two elements of another field have the same representative.
    pub fn connect_nonnative(&mut self, lhs: &NonNativeTarget, rhs: &NonNativeTarget)
        requires
            old(self).wf(),
        ensures
            final(self).wf(),
            final(self).extends(*old(self)),
            final(self).gate_instances == old(self).gate_instances,
            lhs.value.limbs.len() == rhs.value.limbs.len() ==> final(self).operations == old(
                self,
            ).operations,
            final(self).copy_constraints@ == old(self).copy_constraints@ + limb_pairs(
                lhs.value.targets(),
                rhs.value.targets(),
                Target::VirtualTarget { index: old(self).operations.len() },
            ),
    {
        self.connect_biguint(&lhs.value, &rhs.value);
    }
}

/// Multiplication of big integers by a gate of its own.
pub trait BigUintAritmetic: Sized {
    /// Whether a gate for multiplicands of these numbers of limbs can be placed.
    spec fn accepts_biguint_gate(
        self,
        multiplicand_0: BigUintTarget,
        multiplicand_1: BigUintTarget,
    ) -> bool;

    /// Whether `self` is `before` with a gate added, the multiplicands
    /// tied to its first wires, and `product` the wires that carry the product.
    spec fn placed_biguint_gate(
        self,
        before: Self,
        multiplicand_0: BigUintTarget,
        multiplicand_1: BigUintTarget,
        product: BigUintTarget,
    ) -> bool;

    /// Places a gate that multiplies two big integers, ties the
    /// multiplicands to its first wires, and returns the wires that carry
    /// the product.
    fn mul_biguint_gate(
        &mut self,
        multiplicand_0: &BigUintTarget,
        multiplicand_1: &BigUintTarget,
    ) -> (r: BigUintTarget)
        requires
            old(self).accepts_biguint_gate(*multiplicand_0, *multiplicand_1),
        ensures
            final(self).placed_biguint_gate(*old(self), *multiplicand_0, *multiplicand_1, r),
    ;
}

impl BigUintAritmetic for CircuitBuilder {
    open spec fn accepts_biguint_gate(
        self,
        multiplicand_0: BigUintTarget,
        multiplicand_1: BigUintTarget,
    ) -> bool {
        &&& self.wf()
        &&& multiplicand_0.limbs.len() + multiplicand_1.limbs.len() <= usize::MAX / 2
    }

    open spec fn placed_biguint_gate(
        self,
        before: Self,
        multiplicand_0: BigUintTarget,
        multiplicand_1: BigUintTarget,
        product: BigUintTarget,
    ) -> bool {
        &&& self.wf()
        &&& self.extends(before)
        &&& self.operations == before.operations
        &&& self.gate_instances@ == before.gate_instances@.push(
            GateInstance::MulBigUint(
                MulBigUintGate {
                    num_limbs_0: multiplicand_0.limbs.len(),
                    num_limbs_1: multiplicand_1.limbs.len(),
                },
            )
        )
        &&& self.copy_constraints@ == before.copy_constraints@ + connections(
            multiplicand_0.targets(),
            before.gate_instances.len(),
            0
        ) + connections(
            multiplicand_1.targets(),
            before.gate_instances.len(),
            multiplicand_0.limbs.len() as int
        )
        &&& product.targets() == Seq::new(
            (multiplicand_0.limbs.len() + multiplicand_1.limbs.len()) as nat,
            |i: int|
                wire_at(
                    before.gate_instances.len(),
                    multiplicand_0.limbs.len() + multiplicand_1.limbs.len() + i,
                )
        )
    }

    fn mul_biguint_gate(
        &mut self,
        multiplicand_0: &BigUintTarget,
        multiplicand_1: &BigUintTarget,
    ) -> (r: BigUintTarget) {
        let ghost start = *self;
        let n0 = multiplicand_0.num_limbs();
        let n1 = multiplicand_1.num_limbs();
        let gate = MulBigUintGate::new(n0, n1);
        let row = self.add_gate(GateInstance::MulBigUint(gate));
        let ghost placed = *self;
        let limbs = limb_wires(row, 0, n0);
        self.connect_biguint(multiplicand_0, &limbs);
        let ghost first = *self;
        let limbs = limb_wires(row, n0, n1);
        self.connect_biguint(multiplicand_1, &limbs);
        proof {
            self.lemma_extends_trans(first, placed);
            self.lemma_extends_trans(placed, start);
            let zero0 = Target::VirtualTarget { index: placed.operations.len() };
            let zero1 = Target::VirtualTarget { index: first.operations.len() };
            assert(limb_pairs(
                multiplicand_0.targets(),
                Seq::new(n0 as nat, |i: int| wire_at(row, 0 + i)),
                zero0,
            ) =~= connections(multiplicand_0.targets(), row, 0));
            assert(limb_pairs(
                multiplicand_1.targets(),
                Seq::new(n1 as nat, |i: int| wire_at(row, n0 + i)),
                zero1,
            ) =~= connections(multiplicand_1.targets(), row, n0 as int));
        }
        limb_wires(row, n0 + n1, n0 + n1)
    }
}

/// Multiplication of elements of a field other than the circuit's own, by
/// a gate of its own.
pub trait NonNativeAritmetic: Sized {
    /// Whether a gate for multiplicands of a field of `field_bits` bits can be placed.
    spec fn accepts_nonnative_gate(
        self,
        field_bits: usize,
        multiplicand_0: NonNativeTarget,
        multiplicand_1: NonNativeTarget,
    ) -> bool;

    /// Whether `self` is `before` with a gate added, the multiplicands
    /// tied to its first wires, and `product` the wires that carry the product.
    spec fn placed_nonnative_gate(
        self,
        before: Self,
        multiplicand_0: NonNativeTarget,
        multiplicand_1: NonNativeTarget,
        product: NonNativeTarget,
    ) -> bool;

    /// Places a gate that multiplies two elements of a field of
    /// `field_bits` bits as integers, ties the multiplicands to its first
    /// wires, and returns the wires that carry the product, which has
    /// twice as many limbs.
    fn mul_nonnative_gate(
        &mut self,
        field_bits: usize,
        multiplicand_0: &NonNativeTarget,
        multiplicand_1: &NonNativeTarget,
    ) -> (r: NonNativeTarget)
        requires
            old(self).accepts_nonnative_gate(field_bits, *multiplicand_0, *multiplicand_1),
        ensures
            final(self).placed_nonnative_gate(*old(self), *multiplicand_0, *multiplicand_1, r),
    ;
}

impl NonNativeAritmetic for CircuitBuilder {
    open spec fn accepts_nonnative_gate(
        self,
        field_bits: usize,
        multiplicand_0: NonNativeTarget,
        multiplicand_1: NonNativeTarget,
    ) -> bool {
        &&& self.wf()
        &&& spec_num_nonnative_limbs(field_bits) <= usize::MAX / 4
        &&& multiplicand_0.value.limbs.len() == spec_num_nonnative_limbs(field_bits)
        &&& multiplicand_1.value.limbs.len() == spec_num_nonnative_limbs(field_bits)
    }

    open spec fn placed_nonnative_gate(
        self,
        before: Self,
        multiplicand_0: NonNativeTarget,
        multiplicand_1: NonNativeTarget,
        product: NonNativeTarget,
    ) -> bool {
        &&& self.wf()
        &&& self.extends(before)
        &&& self.operations == before.operations
        &&& self.gate_instances@ == before.gate_instances@.push(
            GateInstance::MulNonNative(
                MulNonNativeGate { num_limbs: multiplicand_0.value.limbs.len() },
            )
        )
        &&& self.copy_constraints@ == before.copy_constraints@ + connections(
            multiplicand_0.value.targets(),
            before.gate_instances.len(),
            0
        ) + connections(
            multiplicand_1.value.targets(),
            before.gate_instances.len(),
            multiplicand_0.value.limbs.len() as int
        )
        &&& product.value.targets() == Seq::new(
            (2 * multiplicand_0.value.limbs.len()) as nat,
            |i: int|
                wire_at(
                    before.gate_instances.len(),
                    2 * multiplicand_0.value.limbs.len() + i,
                )
        )
    }

    fn mul_nonnative_gate(
        &mut self,
        field_bits: usize,
        multiplicand_0: &NonNativeTarget,
        multiplicand_1: &NonNativeTarget,
    ) -> (r: NonNativeTarget) {
        let ghost start = *self;
        let num_limbs = Self::num_nonnative_limbs(field_bits);
        let gate = MulNonNativeGate::new(num_limbs);
        let row = self.add_gate(GateInstance::MulNonNative(gate));
        let ghost placed = *self;
        let wires_multiplicand_0 = limb_wires(row, 0, num_limbs);
        let m_0 = self.biguint_to_nonnative(wires_multiplicand_0);
        let wires_multiplicand_1 = limb_wires(row, num_limbs, num_limbs);
        let m_1 = self.biguint_to_nonnative(wires_multiplicand_1);
        self.connect_nonnative(multiplicand_0, &m_0);
        let ghost first = *self;
        self.connect_nonnative(multiplicand_1, &m_1);
        proof {
            self.lemma_extends_trans(first, placed);
            self.lemma_extends_trans(placed, start);
            let zero0 = Target::VirtualTarget { index: placed.operations.len() };
            let zero1 = Target::VirtualTarget { index: first.operations.len() };
            assert(limb_pairs(
                multiplicand_0.value.targets(),
                Seq::new(num_limbs as nat, |i: int| wire_at(row, 0 + i)),
                zero0,
            ) =~= connections(multiplicand_0.value.targets(), row, 0));
            assert(limb_pairs(
                multiplicand_1.value.targets(),
                Seq::new(num_limbs as nat, |i: int| wire_at(row, num_limbs + i)),
                zero1,
            ) =~= connections(multiplicand_1.value.targets(), row, num_limbs as int));
        }
        let wires_product = limb_wires(row, 2 * num_limbs, 2 * num_limbs);
        self.biguint_to_nonnative(wires_product)
    }
}


impl PartitionWitness {
    /// Whether the witness knows both sides of every pair and holds them equal.
    pub open spec fn spec_copy_constraints_hold(self, pairs: Seq<(Target, Target)>) -> bool {
        forall|i: int|
            0 <= i < pairs.len() ==> self.spec_get((#[trigger] pairs[i]).0).is_some()
                && self.spec_get(pairs[i].0) == self.spec_get(pairs[i].1)
    }

    /// Whether the witness satisfies the copy constraints of a circuit.
    pub fn copy_constraints_hold(&self, builder: &CircuitBuilder) -> (ok: bool)
        ensures
            ok == self.spec_copy_constraints_hold(builder.copy_constraints@),
    {
        let mut i: usize = 0;
        while i < builder.copy_constraints.len()
            invariant
                i <= builder.copy_constraints.len(),
                self.spec_copy_constraints_hold(builder.copy_constraints@.take(i as int)),
            decreases builder.copy_constraints.len() - i,
        {
            let pair = builder.copy_constraints[i];
            let left = self.try_get_target(pair.0);
            let right = self.try_get_target(pair.1);
            let same = match (left, right) {
                (Some(x), Some(y)) => x == y,
                _ => false,
            };
            if !same {
                proof {
                    assert(builder.copy_constraints@[i as int] == pair);
                }
                return false;
            }
            proof {
                let next = builder.copy_constraints@.take(i + 1);
                assert forall|t: int| 0 <= t < next.len() implies self.spec_get(
                    (#[trigger] next[t]).0,
                ).is_some() && self.spec_get(next[t].0) == self.spec_get(next[t].1) by {
                    if t < i {
                        assert(builder.copy_constraints@.take(i as int)[t] == next[t]);
                    }
                }
            }
            i = i + 1;
        }
        proof {
            assert(builder.copy_constraints@.take(i as int) == builder.copy_constraints@);
        }
        true
    }
}

} // verus!
