//! Little-endian 32-bit limbs and the integers they stand for.

use vstd::arithmetic::div_mod::{
    lemma_fundamental_div_mod, lemma_fundamental_div_mod_converse, lemma_mod_multiples_vanish,
};
use vstd::arithmetic::power::{lemma_pow0, lemma_pow1, lemma_pow_adds, lemma_pow_positive, pow};
use vstd::prelude::*;

verus! {

/// The radix of one limb, `2^32`.
pub open spec fn limb_base() -> int {
    0x1_0000_0000
}

/// The integer that the limbs stand for, least significant limb first.
pub open spec fn limbs_value(limbs: Seq<u32>) -> int
    decreases limbs.len(),
{
    if limbs.len() == 0 {
        0
    } else {
        limbs_value(limbs.drop_last()) + limbs.last() * pow(limb_base(), (limbs.len() - 1) as nat)
    }
}

/// The sum of the entries of one column.
pub open spec fn column_sum(column: Seq<u32>) -> nat
    decreases column.len(),
{
    if column.len() == 0 {
        0
    } else {
        column_sum(column.drop_last()) + column.last() as nat
    }
}

/// The integer that a sequence of columns stands for: column `k` weighs `2^(32k)`.
pub open spec fn columns_value(columns: Seq<Vec<u32>>) -> int
    decreases columns.len(),
{
    if columns.len() == 0 {
        0
    } else {
        columns_value(columns.drop_last()) + column_sum(columns.last()@) * pow(
            limb_base(),
            (columns.len() - 1) as nat,
        )
    }
}

/// Every power of the radix is positive.
pub proof fn lemma_base_pow_positive(e: nat)
    ensures
        pow(limb_base(), e) > 0,
{
    lemma_pow_positive(limb_base(), e);
}

/// `k` limbs stand for a natural number below `2^(32k)`.
pub proof fn lemma_limbs_value_bound(limbs: Seq<u32>)
    ensures
        0 <= limbs_value(limbs) < pow(limb_base(), limbs.len()),
    decreases limbs.len(),
{
    if limbs.len() == 0 {
        lemma_pow0(limb_base());
    } else {
        let n = (limbs.len() - 1) as nat;
        lemma_limbs_value_bound(limbs.drop_last());
        lemma_base_pow_positive(n);
        vstd::arithmetic::power::lemma_pow1(limb_base());
        lemma_pow_adds(limb_base(), n, 1);
        let p = pow(limb_base(), n);
        let last = limbs.last() as int;
        assert(0 <= last * p && last * p + p <= limb_base() * p) by (nonlinear_arith)
            requires
                0 <= last < limb_base(),
                p > 0,
        ;
        assert(pow(limb_base(), n + 1) == p * limb_base());
        assert(p * limb_base() == limb_base() * p) by (nonlinear_arith);
    }
}

/// A column's sum is below `2^32` times its length.
pub proof fn lemma_column_sum_bound(column: Seq<u32>)
    ensures
        column_sum(column) <= column.len() * 0xffff_ffff,
    decreases column.len(),
{
    if column.len() > 0 {
        lemma_column_sum_bound(column.drop_last());
    }
}

/// The limbs without the zeros at their top end.
pub open spec fn trim_zeros(limbs: Seq<u32>) -> Seq<u32>
    decreases limbs.len(),
{
    if limbs.len() > 0 && limbs.last() == 0 {
        trim_zeros(limbs.drop_last())
    } else {
        limbs
    }
}

/// Whether the top limb, if there is one, is not zero.
pub open spec fn is_trimmed(limbs: Seq<u32>) -> bool {
    limbs.len() == 0 || limbs.last() != 0
}

/// The limbs followed by zeros up to `len` limbs.
pub open spec fn pad_zeros(limbs: Seq<u32>, len: nat) -> Seq<u32> {
    Seq::new(
        len,
        |k: int|
            if k < limbs.len() {
                limbs[k]
            } else {
                0u32
            },
    )
}

/// Limb `k` of the natural number `value`.
pub open spec fn limb_of(value: int, k: nat) -> u32 {
    ((value / pow(limb_base(), k)) % limb_base()) as u32
}

/// The `len` lowest limbs of the natural number `value`.
pub open spec fn limbs_of(value: int, len: nat) -> Seq<u32> {
    Seq::new(len, |k: int| limb_of(value, k as nat))
}

/// Zeros at the top end do not change what limbs stand for.
pub proof fn lemma_trim_keeps_value(limbs: Seq<u32>)
    ensures
        limbs_value(trim_zeros(limbs)) == limbs_value(limbs),
        is_trimmed(trim_zeros(limbs)),
        trim_zeros(limbs).len() <= limbs.len(),
        forall|k: int| 0 <= k < trim_zeros(limbs).len() ==> trim_zeros(limbs)[k] == limbs[k],
        forall|k: int| trim_zeros(limbs).len() <= k < limbs.len() ==> limbs[k] == 0,
    decreases limbs.len(),
{
    if limbs.len() > 0 && limbs.last() == 0 {
        let rest = limbs.drop_last();
        lemma_trim_keeps_value(rest);
        assert(0 * pow(limb_base(), (limbs.len() - 1) as nat) == 0) by (nonlinear_arith);
        assert(trim_zeros(limbs) == trim_zeros(rest));
        assert forall|k: int| 0 <= k < trim_zeros(limbs).len() implies trim_zeros(limbs)[k]
            == limbs[k] by {
            assert(trim_zeros(rest)[k] == rest[k]);
        }
        assert forall|k: int| trim_zeros(limbs).len() <= k < limbs.len() implies limbs[k]
            == 0 by {
            if k < rest.len() {
                assert(rest[k] == 0);
            }
        }
    }
}

/// Zeros appended at the top end do not change what limbs stand for.
pub proof fn lemma_pad_keeps_value(limbs: Seq<u32>, len: nat)
    requires
        len >= limbs.len(),
    ensures
        limbs_value(pad_zeros(limbs, len)) == limbs_value(limbs),
    decreases len - limbs.len(),
{
    let padded = pad_zeros(limbs, len);
    if len == limbs.len() {
        assert(padded =~= limbs);
    } else {
        assert(padded.drop_last() =~= pad_zeros(limbs, (len - 1) as nat));
        lemma_pad_keeps_value(limbs, (len - 1) as nat);
        assert(0 * pow(limb_base(), (len - 1) as nat) == 0) by (nonlinear_arith);
    }
}

/// Every limb can be read back from the number that the limbs stand for:
/// limbs of one length that stand for the same number are the same.
pub proof fn lemma_limbs_of_value(limbs: Seq<u32>)
    ensures
        limbs_of(limbs_value(limbs), limbs.len()) == limbs,
    decreases limbs.len(),
{
    let n = limbs.len();
    let value = limbs_value(limbs);
    if n > 0 {
        let rest = limbs.drop_last();
        let top = limbs.last() as int;
        let below = limbs_value(rest);
        let base = limb_base();
        let weight = pow(base, (n - 1) as nat);
        lemma_limbs_of_value(rest);
        lemma_limbs_value_bound(rest);
        lemma_base_pow_positive((n - 1) as nat);
        assert forall|k: int| 0 <= k < n implies limb_of(value, k as nat) == limbs[k] by {
            let unit = pow(base, k as nat);
            lemma_base_pow_positive(k as nat);
            if k == n - 1 {
                assert(value == top * weight + below);
                lemma_fundamental_div_mod_converse(value, weight, top, below);
                vstd::arithmetic::div_mod::lemma_small_mod(top as nat, base as nat);
            } else {
                // weight == unit * base^(n - 1 - k), and base divides the latter
                let gap = pow(base, (n - 2 - k) as nat);
                lemma_pow_adds(base, k as nat, (n - 1 - k) as nat);
                lemma_pow_adds(base, 1, (n - 2 - k) as nat);
                lemma_pow1(base);
                let q = below / unit;
                let r = below % unit;
                lemma_fundamental_div_mod(below, unit);
                assert(value == (q + top * (base * gap)) * unit + r) by (nonlinear_arith)
                    requires
                        value == below + top * weight,
                        weight == unit * (base * gap),
                        below == unit * q + r,
                ;
                lemma_fundamental_div_mod_converse(value, unit, q + top * (base * gap), r);
                assert(q + top * (base * gap) == base * (top * gap) + q) by (nonlinear_arith);
                lemma_mod_multiples_vanish(top * gap, q, base);
                assert(limb_of(below, k as nat) == rest[k]);
            }
        }
    }
    assert(limbs_of(value, n) =~= limbs);
}

/// The `len` lowest limbs of a natural number stand for its residue modulo `2^(32 len)`.
pub proof fn lemma_value_of_limbs(value: int, len: nat)
    requires
        value >= 0,
    ensures
        limbs_value(limbs_of(value, len)) == value % pow(limb_base(), len),
    decreases len,
{
    let base = limb_base();
    if len == 0 {
        lemma_pow0(base);
    } else {
        let below = (len - 1) as nat;
        let weight = pow(base, below);
        lemma_base_pow_positive(below);
        lemma_value_of_limbs(value, below);
        assert(limbs_of(value, len).drop_last() =~= limbs_of(value, below));
        lemma_pow_adds(base, below, 1);
        lemma_pow1(base);
        vstd::arithmetic::div_mod::lemma_mod_breakdown(value, weight, base);
        let top = (value / weight) % base;
        assert(limbs_of(value, len).last() == top as u32);
        assert(top * weight == weight * top) by (nonlinear_arith);
    }
}

/// Limbs without a zero at the top are no longer than their number needs:
/// below `2^(32 m)` they are at most `m`.
pub proof fn lemma_trimmed_len_bound(limbs: Seq<u32>, m: nat)
    requires
        is_trimmed(limbs),
        limbs_value(limbs) < pow(limb_base(), m),
    ensures
        limbs.len() <= m,
{
    if limbs.len() > m {
        let n = limbs.len();
        let weight = pow(limb_base(), (n - 1) as nat);
        let top = limbs.last() as int;
        lemma_limbs_value_bound(limbs.drop_last());
        vstd::arithmetic::power::lemma_pow_increases(limb_base() as nat, m, (n - 1) as nat);
        lemma_base_pow_positive((n - 1) as nat);
        assert(top * weight >= weight) by (nonlinear_arith)
            requires
                top >= 1,
                weight > 0,
        ;
    }
}

} // verus!
