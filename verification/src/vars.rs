//! The wires of one row as a gate's evaluation sees them, and their
//! reading as multi-limb integers.

use crate::biguint::{biguint_digits, biguint_new, biguint_to_u32_digits};
use crate::extension::deep;
use crate::limbs::{is_trimmed, trim_zeros};
use crate::nonnative_target::{flatten_target, spec_flatten, unflatten_target, NonnativeTarget};
use crate::target::Target;
use core::ops::Range;
use num::BigUint;
use vstd::prelude::*;

verus! {

/// The low 32 bits of every wire.
pub open spec fn low_limbs(wires: Seq<u64>) -> Seq<u32> {
    Seq::new(wires.len(), |i: int| (wires[i] % 0x1_0000_0000) as u32)
}

/// Every limb as a 64-bit word.
pub open spec fn widen(limbs: Seq<u32>) -> Seq<u64> {
    Seq::new(limbs.len(), |i: int| limbs[i] as u64)
}

/// The coordinates of several extension elements, one after the other.
pub open spec fn flatten_ext(elems: Seq<Seq<u64>>) -> Seq<u64>
    decreases elems.len(),
{
    if elems.len() == 0 {
        Seq::empty()
    } else {
        flatten_ext(elems.drop_last()) + elems.last()
    }
}

/// A target that carries a 32-bit limb.
#[derive(Clone, Copy, Debug, PartialEq, Eq, Structural)]
pub struct U32Target(pub Target);

/// The limbs of a big integer as targets, least significant first.
#[derive(Debug)]
pub struct BigUintTarget {
    pub limbs: Vec<U32Target>,
}

impl BigUintTarget {
    /// The number of limbs.
    pub fn num_limbs(&self) -> (r: usize)
        ensures
            r == self.limbs.len(),
    {
        self.limbs.len()
    }

    /// The targets of the limbs.
    pub open spec fn targets(self) -> Seq<Target> {
        Seq::new(self.limbs.len() as nat, |i: int| self.limbs[i].0)
    }
}

/// One row over the base field.
#[derive(Debug)]
pub struct EvaluationVarsBase {
    pub local_constants: Vec<u64>,
    pub local_wires: Vec<u64>,
}

/// One row over the extension field.
#[derive(Debug)]
pub struct EvaluationVars {
    pub local_constants: Vec<Vec<u64>>,
    pub local_wires: Vec<Vec<u64>>,
}

/// One row as targets of a circuit that evaluates a gate.
#[derive(Debug)]
pub struct EvaluationTargets {
    pub local_constants: Vec<NonnativeTarget>,
    pub local_wires: Vec<NonnativeTarget>,
}

/// A row over the base field read as limbs.
pub trait FieldToBigUint {
    /// The wires of the row.
    spec fn spec_wires(&self) -> Seq<u64>;

    /// The integer whose limbs are the low 32 bits of the wires in the range.
    fn get_local_biguint(&self, wire_range: Range<usize>) -> (r: BigUint)
        requires
            wire_range.start <= wire_range.end <= self.spec_wires().len(),
        ensures
            biguint_digits(r) == trim_zeros(
                low_limbs(
                    self.spec_wires().subrange(wire_range.start as int, wire_range.end as int),
                ),
            ),
    ;
}

impl FieldToBigUint for EvaluationVarsBase {
    open spec fn spec_wires(&self) -> Seq<u64> {
        self.local_wires@
    }

    fn get_local_biguint(&self, wire_range: Range<usize>) -> (r: BigUint) {
        let mut arr: Vec<u32> = Vec::new();
        let mut i: usize = wire_range.start;
        while i < wire_range.end
            invariant
                wire_range.start <= i <= wire_range.end <= self.local_wires.len(),
                arr.len() == i - wire_range.start,
                forall|k: int|
                    0 <= k < arr.len() ==> arr[k] == (self.local_wires[wire_range.start + k]
                        % 0x1_0000_0000) as u32,
            decreases wire_range.end - i,
        {
            arr.push((self.local_wires[i] % 0x1_0000_0000) as u32);
            i = i + 1;
        }
        proof {
            assert(arr@ =~= low_limbs(
                self.local_wires@.subrange(wire_range.start as int, wire_range.end as int),
            ));
        }
        biguint_new(arr)
    }
}

/// A row over the extension field read as limbs.
pub trait FieldExtToBigUint {
    /// The wires of the row, as sequences of coordinates.
    spec fn spec_ext_wires(&self) -> Seq<Seq<u64>>;

    /// The integer whose limbs are the low 32 bits of the coordinates of
    /// the wires in the range, wire after wire.
    fn get_local_biguint_algebra(&self, wire_range: Range<usize>) -> (r: BigUint)
        requires
            wire_range.start <= wire_range.end <= self.spec_ext_wires().len(),
        ensures
            biguint_digits(r) == trim_zeros(
                low_limbs(
                    flatten_ext(
                        self.spec_ext_wires().subrange(
                            wire_range.start as int,
                            wire_range.end as int,
                        ),
                    ),
                ),
            ),
    ;
}

impl FieldExtToBigUint for EvaluationVars {
    open spec fn spec_ext_wires(&self) -> Seq<Seq<u64>> {
        deep(self.local_wires@)
    }

    fn get_local_biguint_algebra(&self, wire_range: Range<usize>) -> (r: BigUint) {
        let ghost chosen = deep(self.local_wires@).subrange(
            wire_range.start as int,
            wire_range.end as int,
        );
        let mut values: Vec<u32> = Vec::new();
        let mut i: usize = wire_range.start;
        proof {
            assert(chosen.take(0).len() == 0);
            assert(values@ =~= low_limbs(flatten_ext(chosen.take(0))));
        }
        while i < wire_range.end
            invariant
                wire_range.start <= i <= wire_range.end <= self.local_wires.len(),
                chosen == deep(self.local_wires@).subrange(
                    wire_range.start as int,
                    wire_range.end as int,
                ),
                values@ == low_limbs(flatten_ext(chosen.take(i - wire_range.start))),
            decreases wire_range.end - i,
        {
            let ghost before = values@;
            let ghost done = flatten_ext(chosen.take(i - wire_range.start));
            let wire = &self.local_wires[i];
            let mut j: usize = 0;
            while j < wire.len()
                invariant
                    j <= wire.len(),
                    before == low_limbs(done),
                    values@ == low_limbs(done + wire@.take(j as int)),
                decreases wire.len() - j,
            {
                values.push((wire[j] % 0x1_0000_0000) as u32);
                proof {
                    assert(wire@.take(j + 1) =~= wire@.take(j as int).push(wire[j as int]));
                    assert(values@ =~= low_limbs(done + wire@.take(j + 1)));
                }
                j = j + 1;
            }
            proof {
                assert(wire@.take(j as int) == wire@);
                let k = i - wire_range.start;
                assert(chosen.take(k + 1).drop_last() =~= chosen.take(k));
                assert(chosen.take(k + 1).last() == wire@);
            }
            i = i + 1;
        }
        proof {
            assert(chosen.take(wire_range.end - wire_range.start) =~= chosen);
        }
        biguint_new(values)
    }
}

/// A big integer written out as base-field elements, one per limb.
pub trait BigUintToVecField {
    /// The limbs of the integer.
    spec fn spec_limbs(&self) -> Seq<u32>;

    fn to_basefield_array(&self) -> (r: Vec<u64>)
        ensures
            r@ == widen(self.spec_limbs()),
            is_trimmed(self.spec_limbs()),
    ;
}

impl BigUintToVecField for BigUint {
    open spec fn spec_limbs(&self) -> Seq<u32> {
        biguint_digits(*self)
    }

    fn to_basefield_array(&self) -> (r: Vec<u64>) {
        let u32_digits = biguint_to_u32_digits(self);
        let mut r: Vec<u64> = Vec::new();
        let mut i: usize = 0;
        while i < u32_digits.len()
            invariant
                i <= u32_digits.len(),
                r.len() == i,
                forall|k: int| 0 <= k < i ==> r[k] == u32_digits[k] as u64,
            decreases u32_digits.len() - i,
        {
            r.push(u32_digits[i] as u64);
            i = i + 1;
        }
        proof {
            assert(r@ =~= widen(biguint_digits(*self)));
        }
        r
    }
}

/// A big integer written out as extension-field elements, `d` limbs to an
/// element, the last element filled up with zeros.
pub trait BigUintToVecFieldExt {
    /// The limbs of the integer.
    spec fn spec_ext_limbs(&self) -> Seq<u32>;

    fn to_basefield_array(&self, d: usize) -> (r: Vec<Vec<u64>>)
        requires
            d >= 1,
        ensures
            r.len() * d >= self.spec_ext_limbs().len(),
            r.len() * d < self.spec_ext_limbs().len() + d,
            forall|i: int| 0 <= i < r.len() ==> (#[trigger] r[i]).len() == d,
            forall|i: int, j: int|
                0 <= i < r.len() && 0 <= j < d ==> #[trigger] r[i][j] == (if i * d + j
                    < self.spec_ext_limbs().len() {
                    self.spec_ext_limbs()[i * d + j] as u64
                } else {
                    0
                }),
    ;
}

impl BigUintToVecFieldExt for BigUint {
    open spec fn spec_ext_limbs(&self) -> Seq<u32> {
        biguint_digits(*self)
    }

    fn to_basefield_array(&self, d: usize) -> (r: Vec<Vec<u64>>) {
        let u32_digits = biguint_to_u32_digits(self);
        let n = u32_digits.len();
        let full = n / d;
        proof {
            vstd::arithmetic::div_mod::lemma_fundamental_div_mod(n as int, d as int);
            assert(n % d != 0 ==> full < n) by (nonlinear_arith)
                requires
                    n == d * full + n % d,
                    0 <= n % d < d,
                    full >= 0,
            ;
        }
        let count = if n % d == 0 {
            full
        } else {
            full + 1
        };
        proof {
            assert(count * d >= n && count * d < n + d) by (nonlinear_arith)
                requires
                    n == d * full + n % d,
                    0 <= n % d < d,
                    n % d == 0 ==> count == full,
                    n % d != 0 ==> count == full + 1,
            ;
        }
        let mut r: Vec<Vec<u64>> = Vec::new();
        let mut i: usize = 0;
        while i < count
            invariant
                i <= count,
                d >= 1,
                n == u32_digits.len(),
                count * d < n + d,
                r.len() == i,
                forall|t: int| 0 <= t < r.len() ==> (#[trigger] r[t]).len() == d,
                forall|t: int, j: int|
                    0 <= t < r.len() && 0 <= j < d ==> #[trigger] r[t][j] == (if t * d + j < n {
                        u32_digits[t * d + j] as u64
                    } else {
                        0
                    }),
            decreases count - i,
        {
            proof {
                assert(i * d < n) by (nonlinear_arith)
                    requires
                        0 <= i < count,
                        count * d < n + d,
                        d >= 1,
                ;
            }
            let start = i * d;
            let mut chunk: Vec<u64> = Vec::new();
            let mut j: usize = 0;
            while j < d
                invariant
                    j <= d,
                    start < n,
                    n == u32_digits.len(),
                    chunk.len() == j,
                    forall|k: int|
                        0 <= k < j ==> chunk[k] == (if start + k < n {
                            u32_digits[start + k] as u64
                        } else {
                            0
                        }),
                decreases d - j,
            {
                let value = if j < n - start {
                    u32_digits[start + j] as u64
                } else {
                    0
                };
                chunk.push(value);
                j = j + 1;
            }
            r.push(chunk);
            i = i + 1;
        }
        r
    }
}

/// A row of targets read as the limbs of a big integer.
pub trait FieldExtTargetsToBigUintTarget {
    /// The wires of the row.
    spec fn spec_wire_targets(&self) -> Seq<NonnativeTarget>;

    /// The targets of the coordinates of the wires in the range, wire after
    /// wire, each as one limb.
    fn get_local_biguint_algebra(&self, wire_range: Range<usize>) -> (r: BigUintTarget)
        requires
            wire_range.start <= wire_range.end <= self.spec_wire_targets().len(),
        ensures
            r.targets() == spec_flatten(
                self.spec_wire_targets().subrange(wire_range.start as int, wire_range.end as int),
            ),
    ;
}

impl FieldExtTargetsToBigUintTarget for EvaluationTargets {
    open spec fn spec_wire_targets(&self) -> Seq<NonnativeTarget> {
        self.local_wires@
    }

    fn get_local_biguint_algebra(&self, wire_range: Range<usize>) -> (r: BigUintTarget) {
        let mut arr: Vec<NonnativeTarget> = Vec::new();
        let mut i: usize = wire_range.start;
        let ghost chosen = self.local_wires@.subrange(
            wire_range.start as int,
            wire_range.end as int,
        );
        while i < wire_range.end
            invariant
                wire_range.start <= i <= wire_range.end <= self.local_wires.len(),
                chosen == self.local_wires@.subrange(
                    wire_range.start as int,
                    wire_range.end as int,
                ),
                arr.len() == i - wire_range.start,
                forall|k: int| 0 <= k < arr.len() ==> (#[trigger] arr[k]).0@ == chosen[k].0@,
            decreases wire_range.end - i,
        {
            arr.push(NonnativeTarget(self.local_wires[i].to_target_array()));
            i = i + 1;
        }
        let flat = flatten_target(&arr);
        proof {
            lemma_flatten_same(arr@, chosen);
        }
        let mut limbs: Vec<U32Target> = Vec::new();
        let mut k: usize = 0;
        while k < flat.len()
            invariant
                k <= flat.len(),
                limbs.len() == k,
                forall|t: int| 0 <= t < k ==> (#[trigger] limbs[t]).0 == flat[t],
            decreases flat.len() - k,
        {
            limbs.push(U32Target(flat[k]));
            k = k + 1;
        }
        let r = BigUintTarget { limbs };
        proof {
            assert(r.targets() =~= flat@);
        }
        r
    }
}

/// Extension targets with the same coordinates flatten to the same targets.
pub proof fn lemma_flatten_same(a: Seq<NonnativeTarget>, b: Seq<NonnativeTarget>)
    requires
        a.len() == b.len(),
        forall|k: int| 0 <= k < a.len() ==> (#[trigger] a[k]).0@ == b[k].0@,
    ensures
        spec_flatten(a) == spec_flatten(b),
    decreases a.len(),
{
    if a.len() > 0 {
        lemma_flatten_same(a.drop_last(), b.drop_last());
        assert(a.last().0@ == b.last().0@);
    }
}

/// The limbs of a big integer regrouped into extension targets.
pub trait BigUintTargetToVecFieldExtTargets {
    /// The targets of the limbs.
    spec fn spec_limb_targets(&self) -> Seq<Target>;

    /// Every `d` limbs as the coordinates of one extension target.
    fn to_ext_target_array(&self, d: usize) -> (r: Vec<NonnativeTarget>)
        requires
            d >= 1,
            self.spec_limb_targets().len() % (d as nat) == 0,
        ensures
            r.len() == self.spec_limb_targets().len() / (d as nat),
            forall|i: int| 0 <= i < r.len() ==> (#[trigger] r[i]).0.len() == d,
            forall|i: int, j: int|
                0 <= i < r.len() && 0 <= j < d ==> #[trigger] r[i].0[j]
                    == self.spec_limb_targets()[i * d + j],
    ;
}

impl BigUintTargetToVecFieldExtTargets for BigUintTarget {
    open spec fn spec_limb_targets(&self) -> Seq<Target> {
        self.targets()
    }

    fn to_ext_target_array(&self, d: usize) -> (r: Vec<NonnativeTarget>) {
        let mut flat: Vec<Target> = Vec::new();
        let mut k: usize = 0;
        while k < self.limbs.len()
            invariant
                k <= self.limbs.len(),
                flat.len() == k,
                forall|t: int| 0 <= t < k ==> flat[t] == self.limbs[t].0,
            decreases self.limbs.len() - k,
        {
            flat.push(self.limbs[k].0);
            k = k + 1;
        }
        let r = unflatten_target(&flat, d);
        proof {
            assert(flat@ =~= self.targets());
            vstd::arithmetic::div_mod::lemma_fundamental_div_mod(flat.len() as int, d as int);
            assert forall|i: int, j: int| 0 <= i < r.len() && 0 <= j < d implies #[trigger] r[i].0[j]
                == self.targets()[i * d + j] by {
                assert(i * d + j < d * r.len()) by (nonlinear_arith)
                    requires
                        0 <= i < r.len(),
                        0 <= j < d,
                ;
            }
        }
        r
    }
}

} // verus!
