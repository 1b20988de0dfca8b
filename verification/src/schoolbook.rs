//! Schoolbook multiplication of limbs, row by row, as a function of the
//! limbs alone, with the proof that it yields the limbs of the product.

use crate::limbs::{
    lemma_base_pow_positive, lemma_limbs_of_value, lemma_limbs_value_bound, limb_base, limbs_of,
    limbs_value,
};
use vstd::arithmetic::div_mod::{lemma_fundamental_div_mod, lemma_fundamental_div_mod_converse};
use vstd::arithmetic::power::{lemma_pow0, lemma_pow1, lemma_pow_adds, pow};
use vstd::prelude::*;

verus! {

/// The accumulator and the carry between two steps of a row.
pub struct RowState {
    pub acc: Seq<u32>,
    pub carry: int,
}

/// One step: the product `a * b` and the carry are added to limb `k` of
/// the accumulator. The low half of the sum stays in the limb; the high
/// half and the high half of the product are carried on.
pub open spec fn spec_step(state: RowState, a: u32, b: u32, k: int) -> RowState {
    let product = a * b;
    let sum = state.acc[k] + product % limb_base() + state.carry;
    RowState {
        acc: state.acc.update(k, (sum % limb_base()) as u32),
        carry: sum / limb_base() + product / limb_base(),
    }
}

/// Row `i` after its first `j` steps: `a` times the first `j` limbs of
/// `m1` is added to the accumulator from limb `i` on.
pub open spec fn spec_row(acc: Seq<u32>, a: u32, m1: Seq<u32>, i: int, j: nat) -> RowState
    decreases j,
{
    if j == 0 {
        RowState { acc, carry: 0 }
    } else {
        spec_step(spec_row(acc, a, m1, i, (j - 1) as nat), a, m1[j - 1], i + j - 1)
    }
}

/// The accumulator after the first `i` rows: after each row, what is
/// carried out of it is put into the limb above it.
pub open spec fn spec_rows(m0: Seq<u32>, m1: Seq<u32>, i: nat) -> Seq<u32>
    decreases i,
{
    if i == 0 {
        Seq::new(m0.len() + m1.len(), |k: int| 0u32)
    } else {
        let row = spec_row(
            spec_rows(m0, m1, (i - 1) as nat),
            m0[i - 1],
            m1,
            i - 1,
            m1.len(),
        );
        row.acc.update(i - 1 + m1.len(), row.carry as u32)
    }
}

/// Limbs that are all zero stand for zero.
pub proof fn lemma_zero_limbs(limbs: Seq<u32>)
    requires
        forall|k: int| 0 <= k < limbs.len() ==> limbs[k] == 0,
    ensures
        limbs_value(limbs) == 0,
    decreases limbs.len(),
{
    if limbs.len() > 0 {
        lemma_zero_limbs(limbs.drop_last());
        assert(0 * pow(limb_base(), (limbs.len() - 1) as nat) == 0) by (nonlinear_arith);
    }
}

/// Changing one limb changes what the limbs stand for by the change of
/// the limb times its weight.
pub proof fn lemma_update_limb(limbs: Seq<u32>, k: int, x: u32)
    requires
        0 <= k < limbs.len(),
    ensures
        limbs_value(limbs.update(k, x)) == limbs_value(limbs) + (x - limbs[k]) * pow(
            limb_base(),
            k as nat,
        ),
    decreases limbs.len(),
{
    let n = limbs.len();
    let updated = limbs.update(k, x);
    let weight = pow(limb_base(), (n - 1) as nat);
    if k == n - 1 {
        assert(updated.drop_last() =~= limbs.drop_last());
        assert(x * weight == limbs[k] * weight + (x - limbs[k]) * weight) by (nonlinear_arith);
    } else {
        assert(updated.drop_last() =~= limbs.drop_last().update(k, x));
        lemma_update_limb(limbs.drop_last(), k, x);
    }
}

/// What the first `j` limbs stand for grows by limb `j` times its weight
/// when limb `j` is taken in.
pub proof fn lemma_take_next(limbs: Seq<u32>, j: int)
    requires
        0 <= j < limbs.len(),
    ensures
        limbs_value(limbs.take(j + 1)) == limbs_value(limbs.take(j)) + limbs[j] * pow(
            limb_base(),
            j as nat,
        ),
{
    assert(limbs.take(j + 1).drop_last() =~= limbs.take(j));
}

/// What one step of a row keeps: the accumulator and the carry together
/// grow by `a * b` at the weight of limb `k`, and the carry stays a limb.
pub proof fn lemma_step(state: RowState, a: u32, b: u32, k: int)
    requires
        0 <= k < state.acc.len(),
        0 <= state.carry < limb_base(),
    ensures
        ({
            let next = spec_step(state, a, b, k);
            &&& next.acc.len() == state.acc.len()
            &&& 0 <= next.carry < limb_base()
            &&& limbs_value(next.acc) + next.carry * pow(limb_base(), (k + 1) as nat)
                == limbs_value(state.acc) + state.carry * pow(limb_base(), k as nat) + (a * b)
                * pow(limb_base(), k as nat)
            &&& forall|t: int| 0 <= t < state.acc.len() && t != k ==> next.acc[t] == state.acc[t]
        }),
{
    let base = limb_base();
    let next = spec_step(state, a, b, k);
    let product = a * b;
    let plo = product % base;
    let phi = product / base;
    let sum = state.acc[k] + plo + state.carry;
    let lo = sum % base;
    let hi = sum / base;
    let weight = pow(base, k as nat);
    lemma_fundamental_div_mod(product, base);
    lemma_fundamental_div_mod(sum, base);
    assert(0 <= product <= (base - 1) * (base - 1)) by (nonlinear_arith)
        requires
            0 <= a < base,
            0 <= b < base,
            product == a * b,
    ;
    assert(hi + phi < base) by (nonlinear_arith)
        requires
            sum == base * hi + lo,
            product == base * phi + plo,
            0 <= lo,
            sum == state.acc[k] + plo + state.carry,
            0 <= state.acc[k] < base,
            0 <= state.carry < base,
            product <= (base - 1) * (base - 1),
            base == 0x1_0000_0000,
    ;
    lemma_update_limb(state.acc, k, lo as u32);
    lemma_pow_adds(base, k as nat, 1);
    lemma_pow1(base);
    assert((lo - state.acc[k]) * weight + (hi + phi) * (weight * base) == state.carry * weight
        + product * weight) by (nonlinear_arith)
        requires
            sum == base * hi + lo,
            product == base * phi + plo,
            sum == state.acc[k] + plo + state.carry,
    ;
}

/// What a row keeps after `j` steps: the accumulator and the carry
/// together have grown by `a` times the first `j` limbs of `m1`, at the
/// weight of limb `i`. The limbs from `i + j` on are untouched.
pub proof fn lemma_row(acc: Seq<u32>, a: u32, m1: Seq<u32>, i: int, j: nat)
    requires
        0 <= i,
        j <= m1.len(),
        i + m1.len() <= acc.len(),
    ensures
        ({
            let state = spec_row(acc, a, m1, i, j);
            &&& state.acc.len() == acc.len()
            &&& 0 <= state.carry < limb_base()
            &&& limbs_value(state.acc) + state.carry * pow(limb_base(), (i + j) as nat)
                == limbs_value(acc) + a * pow(limb_base(), i as nat) * limbs_value(
                m1.take(j as int),
            )
            &&& forall|t: int| i + j <= t < acc.len() ==> state.acc[t] == acc[t]
        }),
    decreases j,
{
    let base = limb_base();
    if j == 0 {
        assert(m1.take(0).len() == 0);
        assert(0 * pow(base, i as nat) == 0) by (nonlinear_arith);
        assert(a * pow(base, i as nat) * 0 == 0) by (nonlinear_arith);
    } else {
        let before = spec_row(acc, a, m1, i, (j - 1) as nat);
        lemma_row(acc, a, m1, i, (j - 1) as nat);
        lemma_step(before, a, m1[j - 1], i + j - 1);
        lemma_take_next(m1, j - 1);
        lemma_pow_adds(base, i as nat, (j - 1) as nat);
        let pi = pow(base, i as nat);
        let pj = pow(base, (j - 1) as nat);
        let b = m1[j - 1] as int;
        let w = limbs_value(m1.take(j - 1));
        assert((a * b) * (pi * pj) + a * pi * w == a * pi * (w + b * pj)) by (nonlinear_arith);
    }
}

/// What the rows keep: after `i` rows the accumulator stands for the
/// first `i` limbs of `m0` times `m1`, and the limbs above the rows are zero.
pub proof fn lemma_rows(m0: Seq<u32>, m1: Seq<u32>, i: nat)
    requires
        i <= m0.len(),
    ensures
        spec_rows(m0, m1, i).len() == m0.len() + m1.len(),
        limbs_value(spec_rows(m0, m1, i)) == limbs_value(m0.take(i as int)) * limbs_value(m1),
        forall|t: int|
            i + m1.len() <= t < m0.len() + m1.len() ==> #[trigger] spec_rows(m0, m1, i)[t] == 0,
    decreases i,
{
    let base = limb_base();
    if i == 0 {
        lemma_zero_limbs(spec_rows(m0, m1, 0));
        assert(m0.take(0).len() == 0);
        assert(0 * limbs_value(m1) == 0) by (nonlinear_arith);
    } else {
        let before = spec_rows(m0, m1, (i - 1) as nat);
        lemma_rows(m0, m1, (i - 1) as nat);
        lemma_row(before, m0[i - 1], m1, i - 1, m1.len());
        let row = spec_row(before, m0[i - 1], m1, i - 1, m1.len());
        assert(m1.take(m1.len() as int) =~= m1);
        assert(before[i - 1 + m1.len()] == 0);
        assert(row.acc[i - 1 + m1.len()] == before[i - 1 + m1.len()]);
        assert forall|t: int| i + m1.len() <= t < m0.len() + m1.len() implies #[trigger] spec_rows(
            m0,
            m1,
            i,
        )[t] == 0 by {
            assert(before[t] == 0);
            assert(row.acc[t] == before[t]);
        }
        lemma_update_limb(row.acc, i - 1 + m1.len(), row.carry as u32);
        lemma_take_next(m0, i - 1);
        let a = m0[i - 1] as int;
        let pi = pow(base, (i - 1) as nat);
        let head = limbs_value(m0.take(i - 1));
        let v1 = limbs_value(m1);
        assert((head + a * pi) * v1 == head * v1 + a * pi * v1) by (nonlinear_arith);
        assert((row.carry - 0) * pow(base, (i - 1 + m1.len()) as nat) == row.carry * pow(
            base,
            (i - 1 + m1.len()) as nat,
        ));
    }
}

/// Schoolbook multiplication yields the limbs of the product.
pub proof fn lemma_schoolbook_is_product(m0: Seq<u32>, m1: Seq<u32>)
    ensures
        spec_rows(m0, m1, m0.len()) == limbs_of(
            limbs_value(m0) * limbs_value(m1),
            m0.len() + m1.len(),
        ),
{
    lemma_rows(m0, m1, m0.len());
    assert(m0.take(m0.len() as int) =~= m0);
    lemma_limbs_of_value(spec_rows(m0, m1, m0.len()));
}

} // verus!
