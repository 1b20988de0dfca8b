//! Targets that stand for elements of the extension field, and of the
//! algebra over it.

use crate::circuit_builder::CircuitBuilder;
use crate::field::FieldContext;
use crate::target::{Target, Wire};
use core::ops::Range;
use vstd::arithmetic::div_mod::{lemma_add_mod_noop, lemma_mul_mod_noop_general, lemma_small_mod};
use vstd::prelude::*;

verus! {

/// `Target`s representing an element of an extension field, one per coordinate.
#[derive(Clone, Debug)]
pub struct NonnativeTarget(pub Vec<Target>);

/// `Target`s representing an element of an extension of an extension field.
#[derive(Clone, Debug)]
pub struct NonnativeAlgebraTarget(pub Vec<NonnativeTarget>);

/// The targets of several extension targets, one after the other.
pub open spec fn spec_flatten(l: Seq<NonnativeTarget>) -> Seq<Target>
    decreases l.len(),
{
    if l.len() == 0 {
        Seq::empty()
    } else {
        spec_flatten(l.drop_last()) + l.last().0@
    }
}

impl FieldContext {
    /// The factor that the Frobenius automorphism, applied `count` times,
    /// puts on coordinate `i`: `z^i` for `z == w^(((modulus - 1) / degree) * count)`.
    pub open spec fn spec_frobenius_factor(self, count: nat, i: nat) -> u64 {
        self.spec_pow(
            self.spec_pow(self.w, (((self.modulus - 1) / (self.degree as int)) * count) as nat),
            i,
        )
    }
}

impl NonnativeTarget {
    /// The targets of the coordinates.
    pub fn to_target_array(&self) -> (r: Vec<Target>)
        ensures
            r@ == self.0@,
    {
        let mut r: Vec<Target> = Vec::new();
        let mut i: usize = 0;
        while i < self.0.len()
            invariant
                i <= self.0.len(),
                r.len() == i,
                forall|t: int| 0 <= t < i ==> r[t] == self.0[t],
            decreases self.0.len() - i,
        {
            r.push(self.0[i]);
            i = i + 1;
        }
        proof {
            assert(r@ =~= self.0@);
        }
        r
    }

    /// Whether the builder defines every coordinate.
    pub open spec fn defined_in(self, builder: CircuitBuilder) -> bool {
        forall|i: int| 0 <= i < self.0.len() ==> builder.defines(#[trigger] self.0[i])
    }

    /// The Frobenius automorphism, applied once.
    pub fn frobenius(&self, builder: &mut CircuitBuilder) -> (r: NonnativeTarget)
        requires
            old(builder).wf(),
            self.0.len() == old(builder).ctx.degree,
            self.defined_in(*old(builder)),
        ensures
            final(builder).wf(),
            final(builder).extends(*old(builder)),
            r.0.len() == self.0.len(),
            r.defined_in(*final(builder)),
            forall|wires: Map<Target, u64>, i: int|
                0 <= i < r.0.len() ==> #[trigger] final(builder).value(wires, r.0[i]) == (if 1usize
                    % self.0.len() == 0 {
                    old(builder).value(wires, self.0[i])
                } else {
                    final(builder).ctx.spec_mul(
                        final(builder).ctx.spec_frobenius_factor(1, i as nat),
                        old(builder).value(wires, self.0[i]),
                    )
                }),
    {
        proof {
            if self.0.len() > 1 {
                vstd::arithmetic::div_mod::lemma_small_mod(1, self.0.len() as nat);
            }
        }
        self.repeated_frobenius(1, builder)
    }

    /// The Frobenius automorphism, applied `count` times: coordinate `i` is
    /// multiplied by the constant `z^i`, where `z` depends on `count` modulo
    /// the degree. A multiple of the degree leaves the targets as they are.
    #[verifier::rlimit(40)]
    pub fn repeated_frobenius(&self, count: usize, builder: &mut CircuitBuilder) -> (r:
        NonnativeTarget)
        requires
            old(builder).wf(),
            self.0.len() == old(builder).ctx.degree,
            self.defined_in(*old(builder)),
        ensures
            final(builder).wf(),
            final(builder).extends(*old(builder)),
            r.0.len() == self.0.len(),
            r.defined_in(*final(builder)),
            forall|wires: Map<Target, u64>, i: int|
                0 <= i < r.0.len() ==> #[trigger] final(builder).value(wires, r.0[i]) == (if count
                    % self.0.len() == 0 {
                    old(builder).value(wires, self.0[i])
                } else {
                    final(builder).ctx.spec_mul(
                        final(builder).ctx.spec_frobenius_factor(
                            (count % self.0.len()) as nat,
                            i as nat,
                        ),
                        old(builder).value(wires, self.0[i]),
                    )
                }),
        decreases count,
    {
        let d = self.0.len();
        let ghost start = *builder;
        if count == 0 {
            let r = NonnativeTarget(self.to_target_array());
            proof {
                vstd::arithmetic::div_mod::lemma_small_mod(0, d as nat);
                assert forall|i: int| 0 <= i < r.0.len() implies builder.defines(
                    #[trigger] r.0[i],
                ) by {
                    assert(start.defines(self.0[i]));
                }
            }
            return r;
        } else if count >= d {
            proof {
                vstd::arithmetic::div_mod::lemma_mod_twice(count as int, d as int);
            }
            return self.repeated_frobenius(count % d, builder);
        }
        proof {
            vstd::arithmetic::div_mod::lemma_small_mod(count as nat, d as nat);
        }
        let arr = self.to_target_array();
        let ctx = builder.ctx;
        let k: u64 = (ctx.modulus - 1) / (d as u64);
        proof {
            let ki = k as int;
            let di = d as int;
            let ci = count as int;
            vstd::arithmetic::div_mod::lemma_fundamental_div_mod(ctx.modulus - 1, di);
            assert(ki * ci <= ki * di) by (nonlinear_arith)
                requires
                    0 <= ci <= di,
                    ki >= 0,
            ;
            assert(di * ki == ki * di) by (nonlinear_arith);
        }
        let z0 = ctx.exp_u64(ctx.w, k * (count as u64));
        let mut res: Vec<Target> = Vec::new();
        let mut z: u64 = 1;
        let mut i: usize = 0;
        proof {
            vstd::arithmetic::power::lemma_pow0(z0 as int);
            vstd::arithmetic::div_mod::lemma_small_mod(1, ctx.modulus as nat);
        }
        while i < d
            invariant
                i <= d,
                d == self.0.len(),
                d == arr.len(),
                arr@ == self.0@,
                0 < count < d,
                d == ctx.degree,
                ctx == builder.ctx,
                builder.wf(),
                builder.extends(start),
                self.defined_in(start),
                ctx.is_elem(z0),
                z0 == ctx.spec_pow(
                    ctx.w,
                    (((ctx.modulus - 1) / (d as int)) * count) as nat,
                ),
                ctx.is_elem(z),
                z == ctx.spec_pow(z0, i as nat),
                res.len() == i,
                forall|t: int| 0 <= t < i ==> builder.defines(#[trigger] res[t]),
                forall|wires: Map<Target, u64>, t: int|
                    0 <= t < i ==> #[trigger] builder.value(wires, res[t]) == ctx.spec_mul(
                        ctx.spec_frobenius_factor(count as nat, t as nat),
                        start.value(wires, self.0[t]),
                    ),
            decreases d - i,
        {
            let ghost before = *builder;
            let a = arr[i];
            proof {
                assert(start.defines(self.0[i as int]));
                before.lemma_extends_keeps_value(start, Map::empty(), a);
            }
            let zt = builder.constant(z);
            let ghost middle = *builder;
            proof {
                middle.lemma_extends_keeps_value(before, Map::empty(), a);
            }
            let product = builder.mul(zt, a);
            proof {
                builder.lemma_extends_trans(middle, before);
                builder.lemma_extends_trans(before, start);
                assert forall|wires: Map<Target, u64>, t: int| 0 <= t < i + 1 implies #[trigger] builder.value(
                    wires,
                    res@.push(product)[t],
                ) == ctx.spec_mul(
                    ctx.spec_frobenius_factor(count as nat, t as nat),
                    start.value(wires, self.0[t]),
                ) by {
                    if t < i {
                        builder.lemma_extends_keeps_value(before, wires, res[t]);
                        assert(before.value(wires, res[t]) == ctx.spec_mul(
                            ctx.spec_frobenius_factor(count as nat, t as nat),
                            start.value(wires, self.0[t]),
                        ));
                    } else {
                        middle.lemma_extends_keeps_value(before, wires, a);
                        before.lemma_extends_keeps_value(start, wires, a);
                        assert(middle.value(wires, zt) == z);
                        assert(z == ctx.spec_frobenius_factor(count as nat, t as nat));
                        assert(builder.value(wires, product) == ctx.spec_mul(
                            middle.value(wires, zt),
                            middle.value(wires, a),
                        ));
                    }
                }
                assert forall|t: int| 0 <= t < i implies builder.defines(#[trigger] res[t]) by {
                    builder.lemma_extends_keeps_value(before, Map::empty(), res[t]);
                }
                ctx.lemma_pow_sum(z0, i as nat, 1);
                vstd::arithmetic::power::lemma_pow1(z0 as int);
                vstd::arithmetic::div_mod::lemma_small_mod(z0 as nat, ctx.modulus as nat);
            }
            res.push(product);
            z = ctx.mul(z, z0);
            i = i + 1;
        }
        NonnativeTarget(res)
    }

    /// The targets as the coordinates of an extension target of degree
    /// `d`, or the targets back where they are not `d` in number.
    pub fn try_from(value: Vec<Target>, d: usize) -> (r: Result<NonnativeTarget, Vec<Target>>)
        ensures
            r == (if value.len() == d {
                Ok::<NonnativeTarget, Vec<Target>>(NonnativeTarget(value))
            } else {
                Err::<NonnativeTarget, Vec<Target>>(value)
            }),
    {
        if value.len() == d {
            Ok(NonnativeTarget(value))
        } else {
            Err(value)
        }
    }

    /// The wires of one row at the columns of `range`, as an extension target.
    pub fn from_range(row: usize, range: Range<usize>) -> (r: NonnativeTarget)
        requires
            range.start <= range.end,
        ensures
            r.0.len() == range.end - range.start,
            forall|i: int|
                0 <= i < r.0.len() ==> #[trigger] r.0[i] == Target::Wire(
                    Wire { row, column: (range.start + i) as usize },
                ),
    {
        NonnativeTarget(Target::wires_from_range(row, range))
    }
}

impl NonnativeAlgebraTarget {
    /// The extension targets of the coordinates.
    pub fn to_nonnative_target_array(&self) -> (r: Vec<NonnativeTarget>)
        ensures
            r.len() == self.0.len(),
            forall|i: int| 0 <= i < r.len() ==> (#[trigger] r[i]).0@ == self.0[i].0@,
    {
        let mut r: Vec<NonnativeTarget> = Vec::new();
        let mut i: usize = 0;
        while i < self.0.len()
            invariant
                i <= self.0.len(),
                r.len() == i,
                forall|t: int| 0 <= t < i ==> (#[trigger] r[t]).0@ == self.0[t].0@,
            decreases self.0.len() - i,
        {
            r.push(NonnativeTarget(self.0[i].to_target_array()));
            i = i + 1;
        }
        r
    }
}

impl CircuitBuilder {
    /// The values of the coordinates of an extension target.
    pub open spec fn nonnative_value(self, wires: Map<Target, u64>, t: NonnativeTarget) -> Seq<
        u64,
    > {
        self.values(wires, t.0@)
    }

    /// An extension target with the constant value `c`.
    pub fn constant_nonnative(&mut self, c: &Vec<u64>) -> (r: NonnativeTarget)
        requires
            old(self).wf(),
            old(self).ctx.is_ext(c@),
        ensures
            final(self).wf(),
            final(self).extends(*old(self)),
            r.0.len() == c.len(),
            r.defined_in(*final(self)),
            forall|wires: Map<Target, u64>| #[trigger] final(self).nonnative_value(wires, r) == c@,
    {
        let ghost start = *self;
        let mut parts: Vec<Target> = Vec::new();
        let mut i: usize = 0;
        while i < c.len()
            invariant
                i <= c.len(),
                self.wf(),
                self.extends(start),
                self.ctx.is_ext(c@),
                parts.len() == i,
                forall|t: int| 0 <= t < i ==> self.defines(#[trigger] parts[t]),
                forall|wires: Map<Target, u64>, t: int|
                    0 <= t < i ==> #[trigger] self.value(wires, parts[t]) == c[t],
            decreases c.len() - i,
        {
            let ghost before = *self;
            let part = self.constant(c[i]);
            proof {
                self.lemma_extends_trans(before, start);
                assert forall|wires: Map<Target, u64>, t: int| 0 <= t < i + 1 implies #[trigger] self.value(
                    wires,
                    parts@.push(part)[t],
                ) == c[t] by {
                    if t < i {
                        self.lemma_extends_keeps_value(before, wires, parts[t]);
                    }
                }
                assert forall|t: int| 0 <= t < i implies self.defines(#[trigger] parts[t]) by {
                    self.lemma_extends_keeps_value(before, Map::empty(), parts[t]);
                }
            }
            parts.push(part);
            i = i + 1;
        }
        let r = NonnativeTarget(parts);
        proof {
            assert forall|wires: Map<Target, u64>| #[trigger]
                self.nonnative_value(wires, r) == c@ by {
                assert(self.nonnative_value(wires, r) =~= c@);
            }
        }
        r
    }

    /// An algebra target with the constant value `c`, one extension element
    /// per coordinate.
    pub fn constant_nonnative_algebra(&mut self, c: &Vec<Vec<u64>>) -> (r: NonnativeAlgebraTarget)
        requires
            old(self).wf(),
            forall|i: int| 0 <= i < c.len() ==> old(self).ctx.is_ext((#[trigger] c[i])@),
        ensures
            final(self).wf(),
            final(self).extends(*old(self)),
            r.0.len() == c.len(),
            forall|i: int| 0 <= i < r.0.len() ==> (#[trigger] r.0[i]).defined_in(*final(self)),
            forall|wires: Map<Target, u64>, i: int|
                0 <= i < r.0.len() ==> #[trigger] final(self).nonnative_value(wires, r.0[i])
                    == c[i]@,
    {
        let ghost start = *self;
        let mut parts: Vec<NonnativeTarget> = Vec::new();
        let mut i: usize = 0;
        while i < c.len()
            invariant
                i <= c.len(),
                self.wf(),
                self.extends(start),
                self.ctx == start.ctx,
                forall|t: int| 0 <= t < c.len() ==> start.ctx.is_ext((#[trigger] c[t])@),
                parts.len() == i,
                forall|t: int| 0 <= t < i ==> (#[trigger] parts[t]).defined_in(*self),
                forall|wires: Map<Target, u64>, t: int|
                    0 <= t < i ==> #[trigger] self.nonnative_value(wires, parts[t]) == c[t]@,
            decreases c.len() - i,
        {
            let ghost before = *self;
            assert(self.ctx.is_ext(c[i as int]@));
            let part = self.constant_nonnative(&c[i]);
            proof {
                self.lemma_extends_trans(before, start);
                assert forall|t: int| 0 <= t < i implies (#[trigger] parts[t]).defined_in(
                    *self,
                ) by {
                    self.lemma_nonnative_kept(before, Map::empty(), parts[t]);
                }
                assert forall|wires: Map<Target, u64>, t: int| 0 <= t < i + 1 implies #[trigger] self.nonnative_value(
                    wires,
                    parts@.push(part)[t],
                ) == c[t]@ by {
                    if t < i {
                        self.lemma_nonnative_kept(before, wires, parts[t]);
                    }
                }
            }
            parts.push(part);
            i = i + 1;
        }
        NonnativeAlgebraTarget(parts)
    }

    /// An extension target of a builder keeps its value in every builder
    /// that extends it.
    pub proof fn lemma_nonnative_kept(
        self,
        before: CircuitBuilder,
        wires: Map<Target, u64>,
        t: NonnativeTarget,
    )
        requires
            self.extends(before),
            t.defined_in(before),
        ensures
            t.defined_in(self),
            self.nonnative_value(wires, t) == before.nonnative_value(wires, t),
    {
        assert forall|i: int| 0 <= i < t.0.len() implies self.defines(#[trigger] t.0[i])
            && self.value(wires, t.0[i]) == before.value(wires, t.0[i]) by {
            self.lemma_extends_keeps_value(before, wires, t.0[i]);
        }
        assert(self.nonnative_value(wires, t) =~= before.nonnative_value(wires, t));
    }

    /// An extension target with the value zero.
    pub fn zero_nonnative(&mut self) -> (r: NonnativeTarget)
        requires
            old(self).wf(),
        ensures
            final(self).wf(),
            final(self).extends(*old(self)),
            r.0.len() == final(self).ctx.degree,
            r.defined_in(*final(self)),
            forall|wires: Map<Target, u64>| #[trigger]
                final(self).nonnative_value(wires, r) == final(self).ctx.spec_ext_zero(),
    {
        let c = self.ctx.ext_zero();
        self.constant_nonnative(&c)
    }

    /// An extension target with the value one.
    pub fn one_nonnative(&mut self) -> (r: NonnativeTarget)
        requires
            old(self).wf(),
        ensures
            final(self).wf(),
            final(self).extends(*old(self)),
            r.0.len() == final(self).ctx.degree,
            r.defined_in(*final(self)),
            forall|wires: Map<Target, u64>| #[trigger]
                final(self).nonnative_value(wires, r) == final(self).ctx.spec_ext_one(),
    {
        let c = self.ctx.ext_one();
        self.constant_nonnative(&c)
    }

    /// An extension target with the value two.
    pub fn two_nonnative(&mut self) -> (r: NonnativeTarget)
        requires
            old(self).wf(),
        ensures
            final(self).wf(),
            final(self).extends(*old(self)),
            r.0.len() == final(self).ctx.degree,
            r.defined_in(*final(self)),
            forall|wires: Map<Target, u64>| #[trigger]
                final(self).nonnative_value(wires, r) == final(self).ctx.spec_ext_from_base(
                    final(self).ctx.reduce(2),
                ),
    {
        let c = self.ctx.ext_from_base(2 % self.ctx.modulus);
        self.constant_nonnative(&c)
    }

    /// An extension target with the value minus one.
    pub fn neg_one_nonnative(&mut self) -> (r: NonnativeTarget)
        requires
            old(self).wf(),
        ensures
            final(self).wf(),
            final(self).extends(*old(self)),
            r.0.len() == final(self).ctx.degree,
            r.defined_in(*final(self)),
            forall|wires: Map<Target, u64>| #[trigger]
                final(self).nonnative_value(wires, r) == final(self).ctx.spec_ext_from_base(
                    final(self).ctx.spec_neg(1),
                ),
    {
        let minus_one = self.ctx.neg(1);
        let c = self.ctx.ext_from_base(minus_one);
        self.constant_nonnative(&c)
    }

    /// An algebra target with the value zero.
    pub fn zero_nonnative_algebra(&mut self) -> (r: NonnativeAlgebraTarget)
        requires
            old(self).wf(),
        ensures
            final(self).wf(),
            final(self).extends(*old(self)),
            r.0.len() == final(self).ctx.degree,
            forall|i: int| 0 <= i < r.0.len() ==> (#[trigger] r.0[i]).defined_in(*final(self)),
            forall|wires: Map<Target, u64>, i: int|
                0 <= i < r.0.len() ==> #[trigger] final(self).nonnative_value(wires, r.0[i])
                    == final(self).ctx.spec_ext_zero(),
    {
        let mut c: Vec<Vec<u64>> = Vec::new();
        let mut i: usize = 0;
        while i < self.ctx.degree
            invariant
                i <= self.ctx.degree,
                self.wf(),
                c.len() == i,
                forall|t: int| 0 <= t < i ==> (#[trigger] c[t])@ == self.ctx.spec_ext_zero(),
            decreases self.ctx.degree - i,
        {
            c.push(self.ctx.ext_zero());
            i = i + 1;
        }
        self.constant_nonnative_algebra(&c)
    }

    /// The extension target whose first coordinate is `t` and whose other
    /// coordinates are zero.
    pub fn convert_to_nonnative(&mut self, t: Target) -> (r: NonnativeTarget)
        requires
            old(self).wf(),
            old(self).defines(t),
        ensures
            final(self).wf(),
            final(self).extends(*old(self)),
            r.0.len() == final(self).ctx.degree,
            r.defined_in(*final(self)),
            forall|wires: Map<Target, u64>| #[trigger]
                final(self).nonnative_value(wires, r) == final(self).ctx.spec_ext_from_base(
                    old(self).value(wires, t),
                ),
    {
        let ghost start = *self;
        let zero = self.zero();
        let mut parts: Vec<Target> = Vec::new();
        parts.push(t);
        let mut i: usize = 1;
        while i < self.ctx.degree
            invariant
                1 <= i <= self.ctx.degree,
                parts.len() == i,
                parts[0] == t,
                forall|k: int| 1 <= k < i ==> parts[k] == zero,
            decreases self.ctx.degree - i,
        {
            parts.push(zero);
            i = i + 1;
        }
        let r = NonnativeTarget(parts);
        proof {
            assert forall|wires: Map<Target, u64>| #[trigger]
                self.nonnative_value(wires, r) == self.ctx.spec_ext_from_base(
                    start.value(wires, t),
                ) by {
                self.lemma_extends_keeps_value(start, wires, t);
                assert(self.value(wires, zero) == 0);
                assert(self.nonnative_value(wires, r) =~= self.ctx.spec_ext_from_base(
                    start.value(wires, t),
                ));
            }
            self.lemma_extends_keeps_value(start, Map::empty(), t);
        }
        r
    }

    /// The algebra target whose first coordinate is `et` and whose other
    /// coordinates are zero.
    pub fn convert_to_nonnative_algebra(&mut self, et: NonnativeTarget) -> (r:
        NonnativeAlgebraTarget)
        requires
            old(self).wf(),
            et.defined_in(*old(self)),
        ensures
            final(self).wf(),
            final(self).extends(*old(self)),
            r.0.len() == final(self).ctx.degree,
            r.0[0] == et,
            forall|i: int| 0 <= i < r.0.len() ==> (#[trigger] r.0[i]).defined_in(*final(self)),
            forall|wires: Map<Target, u64>, i: int|
                1 <= i < r.0.len() ==> #[trigger] final(self).nonnative_value(wires, r.0[i])
                    == final(self).ctx.spec_ext_zero(),
    {
        let ghost start = *self;
        let zero = self.zero_nonnative();
        let mut arr: Vec<NonnativeTarget> = Vec::new();
        arr.push(et);
        let mut i: usize = 1;
        while i < self.ctx.degree
            invariant
                1 <= i <= self.ctx.degree,
                arr.len() == i,
                arr[0] == et,
                forall|k: int| 1 <= k < i ==> (#[trigger] arr[k]).0@ == zero.0@,
            decreases self.ctx.degree - i,
        {
            arr.push(NonnativeTarget(zero.to_target_array()));
            i = i + 1;
        }
        let r = NonnativeAlgebraTarget(arr);
        proof {
            self.lemma_nonnative_kept(start, Map::empty(), et);
            assert forall|wires: Map<Target, u64>, i: int| 1 <= i < r.0.len() implies #[trigger] self.nonnative_value(
                wires,
                r.0[i],
            ) == self.ctx.spec_ext_zero() by {
                assert(r.0[i].0@ == zero.0@);
                assert(self.nonnative_value(wires, zero) == self.ctx.spec_ext_zero());
            }
            assert forall|i: int| 0 <= i < r.0.len() implies (#[trigger] r.0[i]).defined_in(
                *self,
            ) by {
                if i >= 1 {
                    assert(r.0[i].0@ == zero.0@);
                    assert forall|k: int| 0 <= k < r.0[i].0.len() implies self.defines(
                        #[trigger] r.0[i].0[k],
                    ) by {
                        assert(r.0[i].0[k] == zero.0[k]);
                    }
                }
            }
        }
        r
    }
}

impl CircuitBuilder {
    /// An extension target keeps its value where the builder keeps the
    /// values of its coordinates.
    pub proof fn lemma_keeps_nonnative(
        self,
        before: CircuitBuilder,
        wires: Map<Target, u64>,
        t: NonnativeTarget,
    )
        requires
            self.keeps(before),
            t.defined_in(before),
        ensures
            t.defined_in(self),
            self.nonnative_value(wires, t) == before.nonnative_value(wires, t),
    {
        assert forall|i: int| 0 <= i < t.0.len() implies self.defines(#[trigger] t.0[i])
            && self.value(wires, t.0[i]) == before.value(wires, t.0[i]) by {
            let target = t.0[i];
            assert(before.defines(target));
            assert(self.value(wires, target) == before.value(wires, target));
            assert(self.defines(target));
        }
        assert(self.nonnative_value(wires, t) =~= before.nonnative_value(wires, t));
    }

    /// Whether every extension target that `before` defines has here the
    /// value it had there, whatever the wires hold.
    pub open spec fn keeps_nonnative(self, before: CircuitBuilder) -> bool {
        forall|wires: Map<Target, u64>, t: NonnativeTarget|
            #![trigger self.nonnative_value(wires, t)]
            t.defined_in(before) ==> self.nonnative_value(wires, t) == before.nonnative_value(
                wires,
                t,
            )
    }

    /// A builder that keeps the values of targets keeps those of extension targets.
    pub proof fn lemma_keeps_all_nonnative(self, before: CircuitBuilder)
        requires
            self.keeps(before),
        ensures
            self.keeps_nonnative(before),
    {
        assert forall|wires: Map<Target, u64>, t: NonnativeTarget|
            #![trigger self.nonnative_value(wires, t)]
            t.defined_in(before) implies self.nonnative_value(wires, t)
            == before.nonnative_value(wires, t) by {
            self.lemma_keeps_nonnative(before, wires, t);
        }
    }

    /// An extension target with the value one.
    pub fn one_extension(&mut self) -> (r: NonnativeTarget)
        requires
            old(self).wf(),
        ensures
            final(self).wf(),
            final(self).extends(*old(self)),
            final(self).keeps(*old(self)),
            final(self).keeps_nonnative(*old(self)),
            r.0.len() == final(self).ctx.degree,
            r.defined_in(*final(self)),
            forall|wires: Map<Target, u64>| #[trigger]
                final(self).nonnative_value(wires, r) == final(self).ctx.spec_ext_one(),
    {
        let ghost before = *self;
        let r = self.one_nonnative();
        proof {
            self.lemma_extends_keeps(before);
            self.lemma_keeps_all_nonnative(before);
        }
        r
    }

    /// An extension target whose value is the difference of the values of `a` and `b`.
    pub fn sub_extension(&mut self, a: &NonnativeTarget, b: &NonnativeTarget) -> (r:
        NonnativeTarget)
        requires
            old(self).wf(),
            a.0.len() == old(self).ctx.degree,
            b.0.len() == old(self).ctx.degree,
            a.defined_in(*old(self)),
            b.defined_in(*old(self)),
        ensures
            final(self).wf(),
            final(self).extends(*old(self)),
            final(self).keeps(*old(self)),
            final(self).keeps_nonnative(*old(self)),
            r.0.len() == final(self).ctx.degree,
            r.defined_in(*final(self)),
            forall|wires: Map<Target, u64>| #[trigger]
                final(self).nonnative_value(wires, r) == final(self).ctx.spec_ext_sub(
                    old(self).nonnative_value(wires, *a),
                    old(self).nonnative_value(wires, *b),
                ),
    {
        let ghost start = *self;
        let d = self.ctx.degree;
        let mut parts: Vec<Target> = Vec::new();
        let mut i: usize = 0;
        proof {
            self.lemma_extends_keeps(start);
        }
        while i < d
            invariant
                i <= d,
                d == self.ctx.degree,
                a.0.len() == d,
                b.0.len() == d,
                a.defined_in(start),
                b.defined_in(start),
                self.wf(),
                self.extends(start),
                self.keeps(start),
                parts.len() == i,
                forall|t: int| 0 <= t < i ==> self.defines(#[trigger] parts[t]),
                forall|wires: Map<Target, u64>, t: int|
                    0 <= t < i ==> #[trigger] self.value(wires, parts[t]) == self.ctx.spec_sub(
                        start.value(wires, a.0[t]),
                        start.value(wires, b.0[t]),
                    ),
            decreases d - i,
        {
            let ghost before = *self;
            assert(start.defines(a.0[i as int]) && start.defines(b.0[i as int]));
            let part = self.sub(a.0[i], b.0[i]);
            proof {
                self.lemma_extends_trans(before, start);
                self.lemma_extends_keeps(start);
                assert forall|wires: Map<Target, u64>, t: int| 0 <= t < i + 1 implies #[trigger] self.value(
                    wires,
                    parts@.push(part)[t],
                ) == self.ctx.spec_sub(start.value(wires, a.0[t]), start.value(wires, b.0[t])) by {
                    if t < i {
                        assert(before.defines(parts[t]));
                    } else {
                        assert(before.value(wires, a.0[i as int]) == start.value(
                            wires,
                            a.0[i as int],
                        ));
                        assert(before.value(wires, b.0[i as int]) == start.value(
                            wires,
                            b.0[i as int],
                        ));
                    }
                }
                assert forall|t: int| 0 <= t < i implies self.defines(#[trigger] parts[t]) by {
                    assert(before.defines(parts[t]));
                }
            }
            parts.push(part);
            i = i + 1;
        }
        let r = NonnativeTarget(parts);
        proof {
            self.lemma_keeps_all_nonnative(start);
            assert forall|wires: Map<Target, u64>| #[trigger]
                self.nonnative_value(wires, r) == self.ctx.spec_ext_sub(
                    start.nonnative_value(wires, *a),
                    start.nonnative_value(wires, *b),
                ) by {
                assert(self.nonnative_value(wires, r) =~= self.ctx.spec_ext_sub(
                    start.nonnative_value(wires, *a),
                    start.nonnative_value(wires, *b),
                ));
            }
        }
        r
    }

    /// An extension target whose value is `acc * alpha + c`, for a
    /// base-field target `alpha`.
    #[verifier::rlimit(40)]
    pub fn scalar_mul_add_extension(
        &mut self,
        alpha: Target,
        acc: &NonnativeTarget,
        c: &NonnativeTarget,
    ) -> (r: NonnativeTarget)
        requires
            old(self).wf(),
            old(self).defines(alpha),
            acc.0.len() == old(self).ctx.degree,
            c.0.len() == old(self).ctx.degree,
            acc.defined_in(*old(self)),
            c.defined_in(*old(self)),
        ensures
            final(self).wf(),
            final(self).extends(*old(self)),
            final(self).keeps(*old(self)),
            final(self).keeps_nonnative(*old(self)),
            r.0.len() == final(self).ctx.degree,
            r.defined_in(*final(self)),
            forall|wires: Map<Target, u64>| #[trigger]
                final(self).nonnative_value(wires, r) == final(self).ctx.spec_ext_add(
                    final(self).ctx.spec_ext_scale(
                        old(self).nonnative_value(wires, *acc),
                        old(self).value(wires, alpha),
                    ),
                    old(self).nonnative_value(wires, *c),
                ),
    {
        let ghost start = *self;
        let d = self.ctx.degree;
        let mut parts: Vec<Target> = Vec::new();
        let mut i: usize = 0;
        proof {
            self.lemma_extends_keeps(start);
        }
        while i < d
            invariant
                i <= d,
                d == self.ctx.degree,
                acc.0.len() == d,
                c.0.len() == d,
                start.defines(alpha),
                acc.defined_in(start),
                c.defined_in(start),
                self.wf(),
                self.extends(start),
                self.keeps(start),
                parts.len() == i,
                forall|t: int| 0 <= t < i ==> self.defines(#[trigger] parts[t]),
                forall|wires: Map<Target, u64>, t: int|
                    0 <= t < i ==> #[trigger] self.value(wires, parts[t]) == self.ctx.spec_add(
                        self.ctx.spec_mul(start.value(wires, acc.0[t]), start.value(wires, alpha)),
                        start.value(wires, c.0[t]),
                    ),
            decreases d - i,
        {
            let ghost before = *self;
            assert(start.defines(acc.0[i as int]) && start.defines(c.0[i as int]));
            let scaled = self.mul(acc.0[i], alpha);
            let ghost middle = *self;
            let part = self.add(scaled, c.0[i]);
            proof {
                self.lemma_extends_trans(middle, before);
                self.lemma_extends_trans(before, start);
                self.lemma_extends_keeps(start);
                self.lemma_extends_keeps(before);
                middle.lemma_extends_trans(before, start);
                middle.lemma_extends_keeps(start);
                assert forall|wires: Map<Target, u64>, t: int| 0 <= t < i + 1 implies #[trigger] self.value(
                    wires,
                    parts@.push(part)[t],
                ) == self.ctx.spec_add(
                    self.ctx.spec_mul(start.value(wires, acc.0[t]), start.value(wires, alpha)),
                    start.value(wires, c.0[t]),
                ) by {
                    if t < i {
                        assert(before.defines(parts[t]));
                    } else {
                        assert(before.value(wires, acc.0[i as int]) == start.value(
                            wires,
                            acc.0[i as int],
                        ));
                        assert(before.value(wires, alpha) == start.value(wires, alpha));
                        assert(middle.value(wires, c.0[i as int]) == start.value(
                            wires,
                            c.0[i as int],
                        ));
                    }
                }
                assert forall|t: int| 0 <= t < i implies self.defines(#[trigger] parts[t]) by {
                    assert(before.defines(parts[t]));
                }
            }
            parts.push(part);
            i = i + 1;
        }
        let r = NonnativeTarget(parts);
        proof {
            self.lemma_keeps_all_nonnative(start);
            assert forall|wires: Map<Target, u64>| #[trigger]
                self.nonnative_value(wires, r) == self.ctx.spec_ext_add(
                    self.ctx.spec_ext_scale(
                        start.nonnative_value(wires, *acc),
                        start.value(wires, alpha),
                    ),
                    start.nonnative_value(wires, *c),
                ) by {
                assert(self.nonnative_value(wires, r) =~= self.ctx.spec_ext_add(
                    self.ctx.spec_ext_scale(
                        start.nonnative_value(wires, *acc),
                        start.value(wires, alpha),
                    ),
                    start.nonnative_value(wires, *c),
                ));
            }
        }
        r
    }

    /// An extension target whose value is the product of the values of `a` and `b`.
    #[verifier::rlimit(40)]
    pub fn mul_extension(&mut self, a: &NonnativeTarget, b: &NonnativeTarget) -> (r:
        NonnativeTarget)
        requires
            old(self).wf(),
            a.0.len() == old(self).ctx.degree,
            b.0.len() == old(self).ctx.degree,
            a.defined_in(*old(self)),
            b.defined_in(*old(self)),
        ensures
            final(self).wf(),
            final(self).extends(*old(self)),
            final(self).keeps(*old(self)),
            final(self).keeps_nonnative(*old(self)),
            r.0.len() == final(self).ctx.degree,
            r.defined_in(*final(self)),
            forall|wires: Map<Target, u64>| #[trigger]
                final(self).nonnative_value(wires, r) == final(self).ctx.spec_ext_mul(
                    old(self).nonnative_value(wires, *a),
                    old(self).nonnative_value(wires, *b),
                ),
    {
        let ghost start = *self;
        let ctx = self.ctx;
        let d = ctx.degree;
        let w = self.constant(ctx.w);
        let mut parts: Vec<Target> = Vec::new();
        let mut k: usize = 0;
        proof {
            self.lemma_extends_keeps(start);
        }
        while k < d
            invariant
                k <= d,
                ctx == self.ctx,
                d == ctx.degree,
                a.0.len() == d,
                b.0.len() == d,
                a.defined_in(start),
                b.defined_in(start),
                self.wf(),
                self.extends(start),
                self.keeps(start),
                self.defines(w),
                forall|wires: Map<Target, u64>| #[trigger] self.value(wires, w) == ctx.w,
                parts.len() == k,
                forall|t: int| 0 <= t < k ==> self.defines(#[trigger] parts[t]),
                forall|wires: Map<Target, u64>, t: int|
                    0 <= t < k ==> #[trigger] self.value(wires, parts[t]) == ctx.reduce(
                        ctx.ext_mul_sum(
                            start.nonnative_value(wires, *a),
                            start.nonnative_value(wires, *b),
                            t,
                            d as nat,
                        ),
                    ),
            decreases d - k,
        {
            let ghost outer = *self;
            let mut acc = self.zero();
            let mut i: usize = 0;
            proof {
                self.lemma_extends_trans(outer, start);
                self.lemma_extends_keeps(start);
                lemma_small_mod(0, ctx.modulus as nat);
            }
            while i < d
                invariant
                    i <= d,
                    k < d,
                    ctx == self.ctx,
                    d == ctx.degree,
                    a.0.len() == d,
                    b.0.len() == d,
                    a.defined_in(start),
                    b.defined_in(start),
                    self.wf(),
                    self.extends(start),
                    self.extends(outer),
                    self.keeps(start),
                    self.keeps(outer),
                    outer.defines(w),
                    self.defines(w),
                    forall|wires: Map<Target, u64>| #[trigger] self.value(wires, w) == ctx.w,
                    self.defines(acc),
                    forall|wires: Map<Target, u64>| #[trigger]
                        self.value(wires, acc) == ctx.reduce(
                            ctx.ext_mul_sum(
                                start.nonnative_value(wires, *a),
                                start.nonnative_value(wires, *b),
                                k as int,
                                i as nat,
                            ),
                        ),
                decreases d - i,
            {
                let ghost before = *self;
                assert(start.defines(a.0[i as int]));
                let term = if i <= k {
                    assert(start.defines(b.0[k - i]));
                    self.mul(a.0[i], b.0[k - i])
                } else {
                    assert(start.defines(b.0[d - i + k]));
                    let inner = self.mul(a.0[i], b.0[d - i + k]);
                    proof {
                        self.lemma_extends_keeps(before);
                    }
                    self.mul(w, inner)
                };
                let ghost middle = *self;
                proof {
                    middle.lemma_extends_trans(before, start);
                    middle.lemma_extends_trans(before, outer);
                    middle.lemma_extends_keeps(start);
                    middle.lemma_extends_keeps(outer);
                    middle.lemma_extends_keeps(before);
                    assert forall|wires: Map<Target, u64>| #[trigger]
                        middle.value(wires, term) == ctx.reduce(
                            ctx.ext_mul_term(
                                start.nonnative_value(wires, *a),
                                start.nonnative_value(wires, *b),
                                k as int,
                                i as int,
                            ),
                        ) by {
                        let av = start.nonnative_value(wires, *a);
                        let bv = start.nonnative_value(wires, *b);
                        assert(before.value(wires, a.0[i as int]) == av[i as int]);
                        if i <= k {
                            assert(before.value(wires, b.0[k - i]) == bv[k - i]);
                        } else {
                            assert(before.value(wires, b.0[d - i + k]) == bv[k + d - i]);
                            assert(before.value(wires, w) == ctx.w);
                            lemma_mul_mod_noop_general(
                                ctx.w as int,
                                av[i as int] * bv[k + d - i],
                                ctx.modulus as int,
                            );
                            lemma_small_mod(ctx.w as nat, ctx.modulus as nat);
                        }
                    }
                }
                let next = self.add(acc, term);
                proof {
                    self.lemma_extends_trans(middle, start);
                    self.lemma_extends_trans(middle, outer);
                    self.lemma_extends_keeps(start);
                    self.lemma_extends_keeps(outer);
                    assert forall|wires: Map<Target, u64>| #[trigger]
                        self.value(wires, next) == ctx.reduce(
                            ctx.ext_mul_sum(
                                start.nonnative_value(wires, *a),
                                start.nonnative_value(wires, *b),
                                k as int,
                                (i + 1) as nat,
                            ),
                        ) by {
                        let av = start.nonnative_value(wires, *a);
                        let bv = start.nonnative_value(wires, *b);
                        assert(middle.value(wires, acc) == before.value(wires, acc));
                        assert(middle.value(wires, term) == ctx.reduce(
                            ctx.ext_mul_term(av, bv, k as int, i as int),
                        ));
                        lemma_add_mod_noop(
                            ctx.ext_mul_sum(av, bv, k as int, i as nat),
                            ctx.ext_mul_term(av, bv, k as int, i as int),
                            ctx.modulus as int,
                        );
                    }
                }
                proof {
                    assert forall|wires: Map<Target, u64>| #[trigger] self.value(wires, w)
                        == ctx.w by {
                        assert(before.value(wires, w) == ctx.w);
                    }
                }
                acc = next;
                i = i + 1;
            }
            proof {
                assert forall|wires: Map<Target, u64>, t: int| 0 <= t < k + 1 implies #[trigger] self.value(
                    wires,
                    parts@.push(acc)[t],
                ) == ctx.reduce(
                    ctx.ext_mul_sum(
                        start.nonnative_value(wires, *a),
                        start.nonnative_value(wires, *b),
                        t,
                        d as nat,
                    ),
                ) by {
                    if t < k {
                        assert(outer.defines(parts[t]));
                    }
                }
                assert forall|t: int| 0 <= t < k implies self.defines(#[trigger] parts[t]) by {
                    assert(outer.defines(parts[t]));
                }
                assert forall|wires: Map<Target, u64>| #[trigger] self.value(wires, w)
                    == ctx.w by {
                    assert(outer.value(wires, w) == ctx.w);
                }
            }
            parts.push(acc);
            k = k + 1;
        }
        let r = NonnativeTarget(parts);
        proof {
            self.lemma_keeps_all_nonnative(start);
            assert forall|wires: Map<Target, u64>| #[trigger]
                self.nonnative_value(wires, r) == ctx.spec_ext_mul(
                    start.nonnative_value(wires, *a),
                    start.nonnative_value(wires, *b),
                ) by {
                assert(self.nonnative_value(wires, r) =~= ctx.spec_ext_mul(
                    start.nonnative_value(wires, *a),
                    start.nonnative_value(wires, *b),
                ));
            }
        }
        r
    }
}

/// Flatten the slice by sending every extension target to its coordinates.
pub fn flatten_target(l: &Vec<NonnativeTarget>) -> (r: Vec<Target>)
    ensures
        r@ == spec_flatten(l@),
{
    let mut r: Vec<Target> = Vec::new();
    let mut i: usize = 0;
    proof {
        assert(l@.take(0).len() == 0);
    }
    while i < l.len()
        invariant
            i <= l.len(),
            r@ == spec_flatten(l@.take(i as int)),
        decreases l.len() - i,
    {
        let ghost before = r@;
        let item = &l[i];
        let mut j: usize = 0;
        while j < item.0.len()
            invariant
                j <= item.0.len(),
                r@ == before + item.0@.take(j as int),
            decreases item.0.len() - j,
        {
            r.push(item.0[j]);
            proof {
                assert(item.0@.take(j + 1) =~= item.0@.take(j as int).push(item.0[j as int]));
                assert(r@ =~= before + item.0@.take(j + 1));
            }
            j = j + 1;
        }
        proof {
            assert(item.0@.take(j as int) == item.0@);
            assert(l@.take(i + 1).drop_last() == l@.take(i as int));
        }
        i = i + 1;
    }
    proof {
        assert(l@.take(i as int) == l@);
    }
    r
}

/// Batch every `d`-sized chunk into an extension target.
pub fn unflatten_target(l: &Vec<Target>, d: usize) -> (r: Vec<NonnativeTarget>)
    requires
        d >= 1,
        l.len() % d == 0,
    ensures
        r.len() == l.len() / d,
        forall|i: int| 0 <= i < r.len() ==> (#[trigger] r[i]).0.len() == d,
        forall|i: int, j: int|
            0 <= i < r.len() && 0 <= j < d ==> #[trigger] r[i].0[j] == l[i * d + j],
{
    let count = l.len() / d;
    let mut r: Vec<NonnativeTarget> = Vec::new();
    let mut i: usize = 0;
    proof {
        vstd::arithmetic::div_mod::lemma_fundamental_div_mod(l.len() as int, d as int);
    }
    while i < count
        invariant
            i <= count,
            d >= 1,
            l.len() == d * count,
            r.len() == i,
            forall|t: int| 0 <= t < i ==> (#[trigger] r[t]).0.len() == d,
            forall|t: int, j: int|
                0 <= t < i && 0 <= j < d ==> #[trigger] r[t].0[j] == l[t * d + j],
        decreases count - i,
    {
        let mut chunk: Vec<Target> = Vec::new();
        let mut j: usize = 0;
        proof {
            assert(i * d + d <= d * count) by (nonlinear_arith)
                requires
                    0 <= i < count,
                    d >= 1,
            ;
        }
        while j < d
            invariant
                j <= d,
                i * d + d <= l.len(),
                chunk.len() == j,
                forall|k: int| 0 <= k < j ==> chunk[k] == l[i * d + k],
            decreases d - j,
        {
            chunk.push(l[i * d + j]);
            j = j + 1;
        }
        r.push(NonnativeTarget(chunk));
        i = i + 1;
    }
    r
}

} // verus!
