//! Multiplication of limbs inside a circuit, and the constraints of the
//! multiplication gate as targets.

use crate::circuit_builder::CircuitBuilder;
use crate::gates::{lemma_flatten_ext_len, spec_limb_differences, MulNonNativeGate};
use crate::limbs::{limb_base, limb_of, limbs_of, limbs_value};
use crate::nonnative_target::{flatten_target, spec_flatten, NonnativeTarget};
use crate::schoolbook::{
    lemma_row, lemma_rows, lemma_schoolbook_is_product, lemma_step, spec_row, spec_rows, spec_step,
    RowState,
};
use crate::target::Target;
use crate::constraint_consumer::nonnative_values;
use crate::vars::{
    flatten_ext, low_limbs, BigUintTarget, EvaluationTargets, FieldExtTargetsToBigUintTarget,
};
use vstd::arithmetic::div_mod::lemma_small_mod;
use vstd::prelude::*;

verus! {

/// The largest product of two limbs. In a field of a greater order the
/// product of two limbs does not wrap.
pub const LIMB_PRODUCT_BOUND: u64 = 0xFFFF_FFFE_0000_0001;

/// The limbs that the targets carry: the low 32 bits of their values.
pub open spec fn target_limbs(
    builder: CircuitBuilder,
    wires: Map<Target, u64>,
    targets: Seq<Target>,
) -> Seq<u32> {
    low_limbs(builder.values(wires, targets))
}

/// Whether the builder defines every target.
pub open spec fn all_defined(builder: CircuitBuilder, targets: Seq<Target>) -> bool {
    forall|i: int| 0 <= i < targets.len() ==> builder.defines(#[trigger] targets[i])
}

/// Targets that carry the low 32 bits of the values of the given targets.
pub fn low_limb_targets(builder: &mut CircuitBuilder, targets: &Vec<Target>) -> (r: Vec<Target>)
    requires
        old(builder).wf(),
        all_defined(*old(builder), targets@),
    ensures
        final(builder).wf(),
        final(builder).extends(*old(builder)),
        final(builder).keeps(*old(builder)),
        r.len() == targets.len(),
        all_defined(*final(builder), r@),
        forall|wires: Map<Target, u64>, i: int|
            0 <= i < r.len() ==> #[trigger] final(builder).value(wires, r[i]) == target_limbs(
                *old(builder),
                wires,
                targets@,
            )[i] as u64,
{
    let ghost start = *builder;
    let mut r: Vec<Target> = Vec::new();
    let mut i: usize = 0;
    proof {
        builder.lemma_extends_keeps(start);
    }
    while i < targets.len()
        invariant
            i <= targets.len(),
            builder.wf(),
            builder.extends(start),
            builder.keeps(start),
            all_defined(start, targets@),
            r.len() == i,
            all_defined(*builder, r@),
            forall|wires: Map<Target, u64>, t: int|
                0 <= t < i ==> #[trigger] builder.value(wires, r[t]) == target_limbs(
                    start,
                    wires,
                    targets@,
                )[t] as u64,
        decreases targets.len() - i,
    {
        let ghost before = *builder;
        assert(start.defines(targets[i as int]));
        let low = builder.low_32(targets[i]);
        proof {
            builder.lemma_extends_trans(before, start);
            builder.lemma_extends_keeps(start);
            assert forall|wires: Map<Target, u64>, t: int| 0 <= t < i + 1 implies #[trigger] builder.value(
                wires,
                r@.push(low)[t],
            ) == target_limbs(start, wires, targets@)[t] as u64 by {
                if t < i {
                    assert(before.defines(r[t]));
                } else {
                    assert(before.value(wires, targets[i as int]) == start.value(
                        wires,
                        targets[i as int],
                    ));
                }
            }
            assert forall|t: int| 0 <= t < i + 1 implies builder.defines(
                #[trigger] r@.push(low)[t],
            ) by {
                if t < i {
                    assert(before.defines(r[t]));
                }
            }
        }
        r.push(low);
        i = i + 1;
    }
    r
}

/// One step of a row inside the circuit: the product of the limbs `a` and
/// `b` and the carry are added to the limb `acc`. Returns the targets of
/// the new limb and of the new carry.
#[verifier::rlimit(40)]
fn step_circuit(builder: &mut CircuitBuilder, acc: Target, carry: Target, a: Target, b: Target) -> (r:
    (Target, Target))
    requires
        old(builder).wf(),
        old(builder).ctx.modulus > LIMB_PRODUCT_BOUND,
        old(builder).defines(acc),
        old(builder).defines(carry),
        old(builder).defines(a),
        old(builder).defines(b),
    ensures
        final(builder).wf(),
        final(builder).extends(*old(builder)),
        final(builder).keeps(*old(builder)),
        final(builder).defines(r.0),
        final(builder).defines(r.1),
        forall|wires: Map<Target, u64>|
            {
                let x = old(builder).value(wires, a);
                let y = old(builder).value(wires, b);
                let limb = old(builder).value(wires, acc);
                let c = old(builder).value(wires, carry);
                x < limb_base() && y < limb_base() && limb < limb_base() && c < limb_base() ==> {
                    let sum = limb + (x * y) % limb_base() + c;
                    &&& #[trigger] final(builder).value(wires, r.0) == sum % limb_base()
                    &&& final(builder).value(wires, r.1) == sum / limb_base() + (x * y)
                        / limb_base()
                }
            },
{
    let ghost start = *builder;
    let product = builder.mul(a, b);
    let ghost s1 = *builder;
    let product_low = builder.low_32(product);
    let ghost s2 = *builder;
    let product_high = builder.high_32(product);
    let ghost s3 = *builder;
    let with_product = builder.add(acc, product_low);
    let ghost s4 = *builder;
    let sum = builder.add(with_product, carry);
    let ghost s5 = *builder;
    let low = builder.low_32(sum);
    let ghost s6 = *builder;
    let high = builder.high_32(sum);
    let ghost s7 = *builder;
    let next_carry = builder.add(high, product_high);
    proof {
        s2.lemma_extends_trans(s1, start);
        s3.lemma_extends_trans(s2, start);
        s4.lemma_extends_trans(s3, start);
        s5.lemma_extends_trans(s4, start);
        s6.lemma_extends_trans(s5, start);
        s7.lemma_extends_trans(s6, start);
        builder.lemma_extends_trans(s7, start);
        builder.lemma_extends_keeps(start);
        let m = builder.ctx.modulus as int;
        assert forall|wires: Map<Target, u64>|
            {
                let x = start.value(wires, a);
                let y = start.value(wires, b);
                let limb = start.value(wires, acc);
                let c = start.value(wires, carry);
                x < limb_base() && y < limb_base() && limb < limb_base() && c < limb_base() ==> {
                    let sum = limb + (x * y) % limb_base() + c;
                    &&& #[trigger] builder.value(wires, low) == sum % limb_base()
                    &&& builder.value(wires, next_carry) == sum / limb_base() + (x * y)
                        / limb_base()
                }
            } by {
            let x = start.value(wires, a) as int;
            let y = start.value(wires, b) as int;
            let limb = start.value(wires, acc) as int;
            let c = start.value(wires, carry) as int;
            if x < limb_base() && y < limb_base() && limb < limb_base() && c < limb_base() {
                let base = limb_base();
                assert(0 <= x * y <= (base - 1) * (base - 1)) by (nonlinear_arith)
                    requires
                        0 <= x < base,
                        0 <= y < base,
                ;
                lemma_small_mod((x * y) as nat, m as nat);
                assert(s1.value(wires, product) == x * y);
                assert(s2.value(wires, product_low) == (x * y) % base);
                assert(s2.value(wires, product) == x * y);
                assert(s3.value(wires, product_high) == (x * y) / base);
                assert(s3.value(wires, acc) == limb);
                assert(s3.value(wires, product_low) == (x * y) % base);
                lemma_small_mod((limb + (x * y) % base) as nat, m as nat);
                assert(s4.value(wires, with_product) == limb + (x * y) % base);
                assert(s4.value(wires, carry) == c);
                let total = limb + (x * y) % base + c;
                lemma_small_mod(total as nat, m as nat);
                assert(s5.value(wires, sum) == total);
                assert(s6.value(wires, low) == total % base);
                assert(s6.value(wires, sum) == total);
                assert(s7.value(wires, high) == total / base);
                assert(s7.value(wires, product_high) == (x * y) / base);
                lemma_small_mod((total / base + (x * y) / base) as nat, m as nat);
                assert(builder.value(wires, low) == total % base);
            }
        }
    }
    (low, next_carry)
}

/// Targets that carry the limbs of the product of the integers whose
/// limbs the targets `m0` and `m1` carry, by schoolbook multiplication.
#[verifier::rlimit(40)]
pub fn mul_limbs_circuit(builder: &mut CircuitBuilder, m0: &Vec<Target>, m1: &Vec<Target>) -> (r:
    Vec<Target>)
    requires
        old(builder).wf(),
        old(builder).ctx.modulus > LIMB_PRODUCT_BOUND,
        all_defined(*old(builder), m0@),
        all_defined(*old(builder), m1@),
        m0.len() + m1.len() <= usize::MAX,
    ensures
        final(builder).wf(),
        final(builder).extends(*old(builder)),
        final(builder).keeps(*old(builder)),
        r.len() == m0.len() + m1.len(),
        all_defined(*final(builder), r@),
        forall|wires: Map<Target, u64>, k: int|
            0 <= k < r.len() ==> #[trigger] final(builder).value(wires, r[k]) == limb_of(
                limbs_value(target_limbs(*old(builder), wires, m0@)) * limbs_value(
                    target_limbs(*old(builder), wires, m1@),
                ),
                k as nat,
            ) as u64,
{
    let ghost start = *builder;
    let n0 = m0.len();
    let n1 = m1.len();
    let total = n0 + n1;
    let a = low_limb_targets(builder, m0);
    let ghost after_a = *builder;
    proof {
        assert forall|i: int| 0 <= i < m1.len() implies builder.defines(#[trigger] m1[i]) by {
            assert(start.defines(m1[i]));
            assert(builder.value(Map::empty(), m1[i]) == start.value(Map::empty(), m1[i]));
        }
    }
    let b = low_limb_targets(builder, m1);
    let ghost after_b = *builder;
    let zero = builder.zero();
    let ghost ready = *builder;
    proof {
        after_b.lemma_extends_trans(after_a, start);
        ready.lemma_extends_trans(after_b, start);
        ready.lemma_extends_keeps(start);
        ready.lemma_extends_trans(after_b, after_a);
        ready.lemma_extends_keeps(after_a);
        ready.lemma_extends_keeps(after_b);
    }
    let mut acc: Vec<Target> = Vec::new();
    let mut k: usize = 0;
    while k < total
        invariant
            k <= total,
            acc.len() == k,
            forall|t: int| 0 <= t < k ==> acc[t] == zero,
        decreases total - k,
    {
        acc.push(zero);
        k = k + 1;
    }
    proof {
        assert forall|wires: Map<Target, u64>, t: int| 0 <= t < n0 implies #[trigger] ready.value(
            wires,
            a[t],
        ) == target_limbs(start, wires, m0@)[t] as u64 by {
            assert(after_a.defines(a[t]));
        }
        assert forall|wires: Map<Target, u64>, t: int| 0 <= t < n1 implies #[trigger] ready.value(
            wires,
            b[t],
        ) == target_limbs(start, wires, m1@)[t] as u64 by {
            assert(after_b.defines(b[t]));
            assert(after_b.value(wires, b[t]) == target_limbs(after_a, wires, m1@)[t] as u64);
            assert(after_a.value(wires, m1[t]) == start.value(wires, m1[t]));
        }
        assert forall|t: int| 0 <= t < n0 implies ready.defines(#[trigger] a[t]) by {
            assert(after_a.defines(a[t]));
            assert(ready.value(Map::empty(), a[t]) == after_a.value(Map::empty(), a[t]));
        }
        assert forall|t: int| 0 <= t < n1 implies ready.defines(#[trigger] b[t]) by {
            assert(after_b.defines(b[t]));
            assert(ready.value(Map::empty(), b[t]) == after_b.value(Map::empty(), b[t]));
        }
    }
    let mut i: usize = 0;
    while i < n0
        invariant
            i <= n0,
            n0 == m0.len(),
            n1 == m1.len(),
            total == n0 + n1,
            a.len() == n0,
            b.len() == n1,
            acc.len() == total,
            builder.wf(),
            builder.ctx.modulus > LIMB_PRODUCT_BOUND,
            builder.extends(start),
            builder.extends(ready),
            builder.defines(zero),
            all_defined(*builder, a@),
            all_defined(*builder, b@),
            all_defined(*builder, acc@),
            forall|wires: Map<Target, u64>| #[trigger] builder.value(wires, zero) == 0,
            forall|wires: Map<Target, u64>, t: int|
                0 <= t < n0 ==> #[trigger] builder.value(wires, a[t]) == target_limbs(
                    start,
                    wires,
                    m0@,
                )[t] as u64,
            forall|wires: Map<Target, u64>, t: int|
                0 <= t < n1 ==> #[trigger] builder.value(wires, b[t]) == target_limbs(
                    start,
                    wires,
                    m1@,
                )[t] as u64,
            forall|wires: Map<Target, u64>, t: int|
                0 <= t < total ==> #[trigger] builder.value(wires, acc[t]) == spec_rows(
                    target_limbs(start, wires, m0@),
                    target_limbs(start, wires, m1@),
                    i as nat,
                )[t] as u64,
        decreases n0 - i,
    {
        let mut carry = zero;
        let mut j: usize = 0;
        while j < n1
            invariant
                j <= n1,
                i < n0,
                n0 == m0.len(),
                n1 == m1.len(),
                total == n0 + n1,
                a.len() == n0,
                b.len() == n1,
                acc.len() == total,
                builder.wf(),
                builder.ctx.modulus > LIMB_PRODUCT_BOUND,
                builder.extends(start),
                builder.extends(ready),
                builder.defines(zero),
                builder.defines(carry),
                all_defined(*builder, a@),
                all_defined(*builder, b@),
                all_defined(*builder, acc@),
                forall|wires: Map<Target, u64>| #[trigger] builder.value(wires, zero) == 0,
                forall|wires: Map<Target, u64>, t: int|
                    0 <= t < n0 ==> #[trigger] builder.value(wires, a[t]) == target_limbs(
                        start,
                        wires,
                        m0@,
                    )[t] as u64,
                forall|wires: Map<Target, u64>, t: int|
                    0 <= t < n1 ==> #[trigger] builder.value(wires, b[t]) == target_limbs(
                        start,
                        wires,
                        m1@,
                    )[t] as u64,
                forall|wires: Map<Target, u64>, t: int|
                    0 <= t < total ==> #[trigger] builder.value(wires, acc[t]) == spec_row(
                        spec_rows(
                            target_limbs(start, wires, m0@),
                            target_limbs(start, wires, m1@),
                            i as nat,
                        ),
                        target_limbs(start, wires, m0@)[i as int],
                        target_limbs(start, wires, m1@),
                        i as int,
                        j as nat,
                    ).acc[t] as u64,
                forall|wires: Map<Target, u64>| #[trigger]
                    builder.value(wires, carry) == spec_row(
                        spec_rows(
                            target_limbs(start, wires, m0@),
                            target_limbs(start, wires, m1@),
                            i as nat,
                        ),
                        target_limbs(start, wires, m0@)[i as int],
                        target_limbs(start, wires, m1@),
                        i as int,
                        j as nat,
                    ).carry,
            decreases n1 - j,
        {
            let ghost before = *builder;
            let ghost old_acc = acc@;
            let ghost old_carry = carry;
            assert(before.defines(acc[i + j]) && before.defines(a[i as int]) && before.defines(
                b[j as int],
            ));
            let (low, next_carry) = step_circuit(builder, acc[i + j], carry, a[i], b[j]);
            acc[i + j] = low;
            carry = next_carry;
            proof {
                builder.lemma_extends_trans(before, start);
                builder.lemma_extends_trans(before, ready);
                assert forall|t: int| 0 <= t < total implies builder.defines(#[trigger] acc[t]) by {
                    if t != i + j {
                        assert(before.defines(old_acc[t]));
                        assert(builder.value(Map::empty(), old_acc[t]) == before.value(
                            Map::empty(),
                            old_acc[t],
                        ));
                    }
                }
                assert forall|t: int| 0 <= t < n0 implies builder.defines(#[trigger] a[t]) by {
                    assert(before.defines(a[t]));
                    assert(builder.value(Map::empty(), a[t]) == before.value(Map::empty(), a[t]));
                }
                assert forall|t: int| 0 <= t < n1 implies builder.defines(#[trigger] b[t]) by {
                    assert(before.defines(b[t]));
                    assert(builder.value(Map::empty(), b[t]) == before.value(Map::empty(), b[t]));
                }
                assert(builder.value(Map::empty(), zero) == before.value(Map::empty(), zero));
                assert forall|wires: Map<Target, u64>| #[trigger] builder.value(wires, zero)
                    == 0 by {
                    assert(before.value(wires, zero) == 0);
                }
                assert forall|wires: Map<Target, u64>, t: int| 0 <= t < n0 implies #[trigger] builder.value(
                    wires,
                    a[t],
                ) == target_limbs(start, wires, m0@)[t] as u64 by {
                    assert(before.defines(a[t]));
                }
                assert forall|wires: Map<Target, u64>, t: int| 0 <= t < n1 implies #[trigger] builder.value(
                    wires,
                    b[t],
                ) == target_limbs(start, wires, m1@)[t] as u64 by {
                    assert(before.defines(b[t]));
                }
                assert forall|wires: Map<Target, u64>| #[trigger]
                    builder.value(wires, carry) == spec_row(
                        spec_rows(
                            target_limbs(start, wires, m0@),
                            target_limbs(start, wires, m1@),
                            i as nat,
                        ),
                        target_limbs(start, wires, m0@)[i as int],
                        target_limbs(start, wires, m1@),
                        i as int,
                        (j + 1) as nat,
                    ).carry by {
                    let limbs0 = target_limbs(start, wires, m0@);
                    let limbs1 = target_limbs(start, wires, m1@);
                    let rows = spec_rows(limbs0, limbs1, i as nat);
                    let state = spec_row(rows, limbs0[i as int], limbs1, i as int, j as nat);
                    lemma_rows(limbs0, limbs1, i as nat);
                    lemma_row(rows, limbs0[i as int], limbs1, i as int, j as nat);
                    lemma_step(state, limbs0[i as int], limbs1[j as int], i + j);
                    assert(before.value(wires, a[i as int]) == limbs0[i as int] as u64);
                    assert(before.value(wires, b[j as int]) == limbs1[j as int] as u64);
                    assert(before.value(wires, old_acc[i + j]) == state.acc[i + j] as u64);
                    assert(before.value(wires, old_carry) == state.carry);
                    assert(builder.value(wires, low) == spec_step(
                        state,
                        limbs0[i as int],
                        limbs1[j as int],
                        i + j,
                    ).acc[i + j] as u64);
                }
                assert forall|wires: Map<Target, u64>, t: int| 0 <= t < total implies #[trigger] builder.value(
                    wires,
                    acc[t],
                ) == spec_row(
                    spec_rows(
                        target_limbs(start, wires, m0@),
                        target_limbs(start, wires, m1@),
                        i as nat,
                    ),
                    target_limbs(start, wires, m0@)[i as int],
                    target_limbs(start, wires, m1@),
                    i as int,
                    (j + 1) as nat,
                ).acc[t] as u64 by {
                    let limbs0 = target_limbs(start, wires, m0@);
                    let limbs1 = target_limbs(start, wires, m1@);
                    let rows = spec_rows(limbs0, limbs1, i as nat);
                    let state = spec_row(rows, limbs0[i as int], limbs1, i as int, j as nat);
                    lemma_rows(limbs0, limbs1, i as nat);
                    lemma_row(rows, limbs0[i as int], limbs1, i as int, j as nat);
                    lemma_step(state, limbs0[i as int], limbs1[j as int], i + j);
                    if t != i + j {
                        assert(before.defines(old_acc[t]));
                        assert(before.value(wires, old_acc[t]) == state.acc[t] as u64);
                    } else {
                        assert(before.value(wires, a[i as int]) == limbs0[i as int] as u64);
                        assert(before.value(wires, b[j as int]) == limbs1[j as int] as u64);
                        assert(before.value(wires, old_acc[i + j]) == state.acc[i + j] as u64);
                        assert(before.value(wires, old_carry) == state.carry);
                        assert(builder.value(wires, low) == spec_step(
                            state,
                            limbs0[i as int],
                            limbs1[j as int],
                            i + j,
                        ).acc[i + j] as u64);
                    }
                }
            }
            j = j + 1;
        }
        let ghost before = *builder;
        let ghost old_acc = acc@;
        acc[i + n1] = carry;
        proof {
            assert forall|t: int| 0 <= t < total implies builder.defines(#[trigger] acc[t]) by {
                if t != i + n1 {
                    assert(before.defines(old_acc[t]));
                }
            }
            assert forall|wires: Map<Target, u64>, t: int| 0 <= t < total implies #[trigger] builder.value(
                wires,
                acc[t],
            ) == spec_rows(
                target_limbs(start, wires, m0@),
                target_limbs(start, wires, m1@),
                (i + 1) as nat,
            )[t] as u64 by {
                let limbs0 = target_limbs(start, wires, m0@);
                let limbs1 = target_limbs(start, wires, m1@);
                let rows = spec_rows(limbs0, limbs1, i as nat);
                let row = spec_row(rows, limbs0[i as int], limbs1, i as int, n1 as nat);
                lemma_rows(limbs0, limbs1, i as nat);
                lemma_row(rows, limbs0[i as int], limbs1, i as int, n1 as nat);
                assert(before.value(wires, carry) == row.carry);
                if t != i + n1 {
                    assert(before.value(wires, old_acc[t]) == row.acc[t] as u64);
                }
            }
        }
        i = i + 1;
    }
    proof {
        builder.lemma_extends_keeps(start);
        assert forall|wires: Map<Target, u64>, k: int| 0 <= k < total implies #[trigger] builder.value(
            wires,
            acc[k],
        ) == limb_of(
            limbs_value(target_limbs(start, wires, m0@)) * limbs_value(
                target_limbs(start, wires, m1@),
            ),
            k as nat,
        ) as u64 by {
            let limbs0 = target_limbs(start, wires, m0@);
            let limbs1 = target_limbs(start, wires, m1@);
            lemma_schoolbook_is_product(limbs0, limbs1);
            assert(limbs_of(limbs_value(limbs0) * limbs_value(limbs1), total as nat)[k] == limb_of(
                limbs_value(limbs0) * limbs_value(limbs1),
                k as nat,
            ));
        }
    }
    acc
}

/// The values of the coordinates of extension targets, one target after
/// the other, are the coordinates of their values.
pub proof fn lemma_flatten_values(
    builder: CircuitBuilder,
    wires: Map<Target, u64>,
    l: Seq<NonnativeTarget>,
)
    ensures
        builder.values(wires, spec_flatten(l)) == flatten_ext(nonnative_values(builder, wires, l)),
    decreases l.len(),
{
    if l.len() == 0 {
        assert(builder.values(wires, spec_flatten(l)) =~= Seq::<u64>::empty());
    } else {
        lemma_flatten_values(builder, wires, l.drop_last());
        assert(nonnative_values(builder, wires, l).drop_last() =~= nonnative_values(
            builder,
            wires,
            l.drop_last(),
        ));
        assert(builder.values(wires, spec_flatten(l)) =~= builder.values(
            wires,
            spec_flatten(l.drop_last()),
        ) + builder.nonnative_value(wires, l.last()));
    }
}

/// Extension targets that the builder defines have coordinates that it defines.
pub proof fn lemma_flatten_defined(builder: CircuitBuilder, l: Seq<NonnativeTarget>)
    requires
        forall|i: int| 0 <= i < l.len() ==> (#[trigger] l[i]).defined_in(builder),
    ensures
        all_defined(builder, spec_flatten(l)),
    decreases l.len(),
{
    if l.len() > 0 {
        lemma_flatten_defined(builder, l.drop_last());
        let head = spec_flatten(l.drop_last());
        assert forall|k: int| 0 <= k < spec_flatten(l).len() implies builder.defines(
            #[trigger] spec_flatten(l)[k],
        ) by {
            if k < head.len() {
                assert(builder.defines(head[k]));
            } else {
                assert(l.last().defined_in(builder));
                assert(builder.defines(l.last().0[k - head.len()]));
            }
        }
    }
}

/// `count` extension targets of `d` coordinates each have `count * d` coordinates.
pub proof fn lemma_flatten_len(l: Seq<NonnativeTarget>, d: nat)
    requires
        forall|i: int| 0 <= i < l.len() ==> (#[trigger] l[i]).0.len() == d,
    ensures
        spec_flatten(l).len() == l.len() * d,
    decreases l.len(),
{
    if l.len() > 0 {
        lemma_flatten_len(l.drop_last(), d);
        assert((l.len() - 1) * d + d == l.len() * d) by (nonlinear_arith);
    } else {
        assert(0 * d == 0);
    }
}

/// The targets of the limbs of a big integer.
fn limb_targets(limbs: &BigUintTarget) -> (r: Vec<Target>)
    ensures
        r@ == limbs.targets(),
{
    let mut r: Vec<Target> = Vec::new();
    let mut i: usize = 0;
    while i < limbs.limbs.len()
        invariant
            i <= limbs.limbs.len(),
            r.len() == i,
            forall|t: int| 0 <= t < i ==> r[t] == limbs.limbs[t].0,
        decreases limbs.limbs.len() - i,
    {
        r.push(limbs.limbs[i].0);
        i = i + 1;
    }
    proof {
        assert(r@ =~= limbs.targets());
    }
    r
}

impl MulNonNativeGate {
    /// The constraints on a row inside a circuit: targets whose values are,
    /// whatever the wires hold, the constraints that `eval_unfiltered`
    /// computes from the values of the row. The limbs are the low 32 bits
    /// of the coordinates of the wires; the product is computed by
    /// schoolbook multiplication in the circuit.
    #[verifier::rlimit(40)]
    pub fn eval_unfiltered_circuit(
        &self,
        builder: &mut CircuitBuilder,
        vars: &EvaluationTargets,
    ) -> (r: Vec<NonnativeTarget>)
        requires
            self.wf(),
            old(builder).wf(),
            old(builder).ctx.modulus > LIMB_PRODUCT_BOUND,
            vars.local_wires.len() >= 4 * self.num_limbs,
            forall|i: int|
                0 <= i < vars.local_wires.len() ==> (#[trigger] vars.local_wires[i]).defined_in(
                    *old(builder),
                ) && vars.local_wires[i].0.len() == old(builder).ctx.degree,
            4 * self.num_limbs * old(builder).ctx.degree <= usize::MAX,
        ensures
            final(builder).wf(),
            final(builder).extends(*old(builder)),
            final(builder).keeps(*old(builder)),
            r.len() == 2 * self.num_limbs,
            forall|e: int|
                0 <= e < r.len() ==> (#[trigger] r[e]).0.len() == final(builder).ctx.degree
                    && r[e].defined_in(*final(builder)),
            forall|wires: Map<Target, u64>, e: int, j: int|
                0 <= e < r.len() && 0 <= j < final(builder).ctx.degree ==> #[trigger] final(builder).value(
                    wires,
                    r[e].0[j],
                ) == spec_limb_differences(
                    final(builder).ctx,
                    limbs_value(
                        low_limbs(
                            flatten_ext(
                                nonnative_values(
                                    *old(builder),
                                    wires,
                                    vars.local_wires@.subrange(0, self.num_limbs as int),
                                ),
                            ),
                        ),
                    ) * limbs_value(
                        low_limbs(
                            flatten_ext(
                                nonnative_values(
                                    *old(builder),
                                    wires,
                                    vars.local_wires@.subrange(
                                        self.num_limbs as int,
                                        2 * self.num_limbs as int,
                                    ),
                                ),
                            ),
                        ),
                    ),
                    low_limbs(
                        flatten_ext(
                            nonnative_values(
                                *old(builder),
                                wires,
                                vars.local_wires@.subrange(
                                    2 * self.num_limbs as int,
                                    4 * self.num_limbs as int,
                                ),
                            ),
                        ),
                    ),
                )[e * final(builder).ctx.degree + j],
    {
        let ghost start = *builder;
        let n = self.num_limbs;
        let d = builder.ctx.degree;
        let ghost wires0 = vars.local_wires@.subrange(0, n as int);
        let ghost wires1 = vars.local_wires@.subrange(n as int, 2 * n as int);
        let ghost wires2 = vars.local_wires@.subrange(2 * n as int, 4 * n as int);
        let multiplicand_0 = limb_targets(&vars.get_local_biguint_algebra(self.wires_multiplicand_0()));
        let multiplicand_1 = limb_targets(&vars.get_local_biguint_algebra(self.wires_multiplicand_1()));
        let output = limb_targets(&vars.get_local_biguint_algebra(self.wires_ouput()));
        proof {
            lemma_flatten_defined(start, wires0);
            lemma_flatten_defined(start, wires1);
            lemma_flatten_defined(start, wires2);
            lemma_flatten_len(wires0, d as nat);
            lemma_flatten_len(wires1, d as nat);
            lemma_flatten_len(wires2, d as nat);
            assert(n * d + n * d == 2 * n * d) by (nonlinear_arith);
            assert((2 * n) * d == 2 * n * d) by (nonlinear_arith);
            assert(0 <= 2 * n * d <= 4 * n * d) by (nonlinear_arith)
                requires
                    n >= 0,
                    d >= 0,
            ;
        }
        let computed_output = mul_limbs_circuit(builder, &multiplicand_0, &multiplicand_1);
        let ghost multiplied = *builder;
        proof {
            multiplied.lemma_extends_keeps(start);
            assert forall|i: int| 0 <= i < output.len() implies multiplied.defines(
                #[trigger] output[i],
            ) by {
                assert(start.defines(output[i]));
                assert(multiplied.value(Map::empty(), output[i]) == start.value(
                    Map::empty(),
                    output[i],
                ));
            }
        }
        let claimed = low_limb_targets(builder, &output);
        let ghost read = *builder;
        let total = 2 * n * d;
        let mut flat: Vec<Target> = Vec::new();
        let mut k: usize = 0;
        proof {
            read.lemma_extends_trans(multiplied, start);
            read.lemma_extends_keeps(start);
            read.lemma_extends_keeps(multiplied);
        }
        while k < total
            invariant
                k <= total,
                total == 2 * n * d,
                claimed.len() == total,
                computed_output.len() == total,
                output.len() == total,
                output@ == spec_flatten(wires2),
                all_defined(start, output@),
                builder.wf(),
                builder.extends(read),
                builder.extends(start),
                all_defined(read, claimed@),
                all_defined(multiplied, computed_output@),
                multiplied.keeps(start),
                read.keeps(multiplied),
                flat.len() == k,
                all_defined(*builder, flat@),
                forall|wires: Map<Target, u64>, t: int|
                    0 <= t < total ==> #[trigger] read.value(wires, claimed[t]) == target_limbs(
                        multiplied,
                        wires,
                        output@,
                    )[t] as u64,
                forall|wires: Map<Target, u64>, t: int|
                    0 <= t < total ==> #[trigger] multiplied.value(wires, computed_output[t])
                        == limb_of(
                        limbs_value(target_limbs(start, wires, multiplicand_0@)) * limbs_value(
                            target_limbs(start, wires, multiplicand_1@),
                        ),
                        t as nat,
                    ) as u64,
                forall|wires: Map<Target, u64>, t: int|
                    0 <= t < k ==> #[trigger] builder.value(wires, flat[t]) == spec_limb_differences(
                        builder.ctx,
                        limbs_value(target_limbs(start, wires, multiplicand_0@)) * limbs_value(
                            target_limbs(start, wires, multiplicand_1@),
                        ),
                        target_limbs(start, wires, output@),
                    )[t],
            decreases total - k,
        {
            let ghost before = *builder;
            proof {
                before.lemma_extends_keeps(read);
                assert(read.defines(claimed[k as int]));
                assert(multiplied.defines(computed_output[k as int]));
                assert(read.value(Map::empty(), computed_output[k as int]) == multiplied.value(
                    Map::empty(),
                    computed_output[k as int],
                ));
                assert(before.value(Map::empty(), claimed[k as int]) == read.value(
                    Map::empty(),
                    claimed[k as int],
                ));
                assert(before.value(Map::empty(), computed_output[k as int]) == read.value(
                    Map::empty(),
                    computed_output[k as int],
                ));
            }
            let difference = builder.sub(claimed[k], computed_output[k]);
            proof {
                builder.lemma_extends_trans(before, read);
                builder.lemma_extends_trans(before, start);
                assert forall|wires: Map<Target, u64>, t: int| 0 <= t < k + 1 implies #[trigger] builder.value(
                    wires,
                    flat@.push(difference)[t],
                ) == spec_limb_differences(
                    builder.ctx,
                    limbs_value(target_limbs(start, wires, multiplicand_0@)) * limbs_value(
                        target_limbs(start, wires, multiplicand_1@),
                    ),
                    target_limbs(start, wires, output@),
                )[t] by {
                    if t < k {
                        assert(before.defines(flat[t]));
                    } else {
                        assert(read.value(wires, computed_output[k as int]) == multiplied.value(
                            wires,
                            computed_output[k as int],
                        ));
                        assert(before.value(wires, claimed[k as int]) == read.value(
                            wires,
                            claimed[k as int],
                        ));
                        assert(before.value(wires, computed_output[k as int]) == read.value(
                            wires,
                            computed_output[k as int],
                        ));
                        assert(multiplied.value(wires, output[k as int]) == start.value(
                            wires,
                            output[k as int],
                        ));
                    }
                }
                assert forall|t: int| 0 <= t < k + 1 implies builder.defines(
                    #[trigger] flat@.push(difference)[t],
                ) by {
                    if t < k {
                        assert(before.defines(flat[t]));
                    }
                }
            }
            flat.push(difference);
            k = k + 1;
        }
        proof {
            assert(d * (2 * n) == 2 * n * d) by (nonlinear_arith);
            vstd::arithmetic::div_mod::lemma_fundamental_div_mod_converse(
                total as int,
                d as int,
                2 * n,
                0,
            );
        }
        let r = crate::nonnative_target::unflatten_target(&flat, d);
        proof {
            builder.lemma_extends_keeps(start);
            assert forall|e: int| 0 <= e < r.len() implies (#[trigger] r[e]).defined_in(
                *builder,
            ) by {
                assert forall|j: int| 0 <= j < r[e].0.len() implies builder.defines(
                    #[trigger] r[e].0[j],
                ) by {
                    assert(e * d + j < 2 * n * d) by (nonlinear_arith)
                        requires
                            0 <= e < 2 * n,
                            0 <= j < d,
                    ;
                    assert(r[e].0[j] == flat[e * d + j]);
                }
            }
            assert forall|wires: Map<Target, u64>, e: int, j: int|
                0 <= e < r.len() && 0 <= j < d implies #[trigger] builder.value(wires, r[e].0[j])
                == spec_limb_differences(
                builder.ctx,
                limbs_value(low_limbs(flatten_ext(nonnative_values(start, wires, wires0))))
                    * limbs_value(low_limbs(flatten_ext(nonnative_values(start, wires, wires1)))),
                low_limbs(flatten_ext(nonnative_values(start, wires, wires2))),
            )[e * d + j] by {
                assert(e * d + j < 2 * n * d) by (nonlinear_arith)
                    requires
                        0 <= e < 2 * n,
                        0 <= j < d,
                ;
                assert(r[e].0[j] == flat[e * d + j]);
                lemma_flatten_values(start, wires, wires0);
                lemma_flatten_values(start, wires, wires1);
                lemma_flatten_values(start, wires, wires2);
            }
        }
        r
    }
}

} // verus!
