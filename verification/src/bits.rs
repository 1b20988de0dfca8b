//! Powers of two and bit-reversed indexing.

use vstd::arithmetic::power2::{is_pow2, lemma_pow2_pos, lemma_pow2_unfold, pow2};
use vstd::prelude::*;

verus! {

/// The number of halvings that take `n` down to one.
pub open spec fn spec_log2(n: int) -> nat
    decreases n,
{
    if n <= 1 {
        0
    } else {
        1 + spec_log2(n / 2)
    }
}

/// `spec_log2` inverts `pow2`.
pub proof fn lemma_log2_pow2(k: nat)
    ensures
        spec_log2(pow2(k) as int) == k,
    decreases k,
{
    vstd::arithmetic::power2::lemma2_to64();
    if k > 0 {
        lemma_pow2_unfold(k);
        lemma_pow2_pos((k - 1) as nat);
        lemma_log2_pow2((k - 1) as nat);
    }
}

/// A power of two is two to the power of its logarithm.
pub proof fn lemma_pow2_log2(n: int)
    requires
        is_pow2(n),
    ensures
        n == pow2(spec_log2(n)),
    decreases n,
{
    reveal(is_pow2);
    vstd::arithmetic::power2::lemma2_to64();
    if n > 1 {
        lemma_pow2_log2(n / 2);
        lemma_pow2_unfold(spec_log2(n));
    }
}

/// The exponent `k` of a power of two `n == 2^k`.
pub fn log2_strict(n: usize) -> (r: usize)
    requires
        is_pow2(n as int),
    ensures
        n == pow2(r as nat),
        r == spec_log2(n as int),
        r < usize::BITS,
{
    let mut m: usize = n;
    let mut r: usize = 0;
    proof {
        vstd::arithmetic::power2::lemma2_to64();
    }
    while m > 1
        invariant
            is_pow2(m as int),
            m * pow2(r as nat) == n,
            r <= usize::BITS,
        decreases m,
    {
        proof {
            reveal(is_pow2);
            lemma_pow2_unfold((r + 1) as nat);
            lemma_pow2_pos(r as nat);
            let q = pow2(r as nat) as int;
            let h = (m / 2) as int;
            assert(h * (2 * q) == (2 * h) * q) by (nonlinear_arith);
            if r == usize::BITS {
                lemma_pow2_big(r as nat);
                assert(m * q >= 2 * q) by (nonlinear_arith)
                    requires
                        m >= 2,
                        q > 0,
                ;
            }
        }
        m = m / 2;
        r = r + 1;
    }
    proof {
        assert(m == 1) by {
            reveal(is_pow2);
        }
        assert(1 * pow2(r as nat) == pow2(r as nat));
        if r >= usize::BITS {
            lemma_pow2_big(r as nat);
        }
        lemma_log2_pow2(r as nat);
    }
    r
}

/// `2^k` exceeds every `usize` once `k` reaches the width of `usize`.
proof fn lemma_pow2_big(k: nat)
    requires
        k >= usize::BITS,
    ensures
        pow2(k) > usize::MAX,
    decreases k,
{
    vstd::arithmetic::power2::lemma2_to64();
    vstd::arithmetic::power2::lemma2_to64_rest();
    if k > 64 {
        lemma_pow2_big((k - 1) as nat);
        lemma_pow2_unfold(k);
    } else if k > 32 {
        if usize::BITS == 32 {
            lemma_pow2_big((k - 1) as nat);
        } else {
            assert(k == 64);
        }
        lemma_pow2_unfold(k);
    }
}

/// `2^k` as a machine integer.
pub fn pow2_usize(k: usize) -> (r: usize)
    requires
        pow2(k as nat) <= usize::MAX,
    ensures
        r == pow2(k as nat),
{
    let mut r: usize = 1;
    let mut i: usize = 0;
    proof {
        vstd::arithmetic::power2::lemma2_to64();
    }
    while i < k
        invariant
            i <= k,
            r == pow2(i as nat),
            pow2(k as nat) <= usize::MAX,
        decreases k - i,
    {
        proof {
            lemma_pow2_unfold((i + 1) as nat);
            lemma_pow2_monotone((i + 1) as nat, k as nat);
        }
        r = r * 2;
        i = i + 1;
    }
    r
}

/// `2^k`, where `bound * 2^k` is known to fit.
pub fn pow2_usize_checked(k: usize, bound: usize) -> (r: usize)
    requires
        bound >= 1,
        bound * pow2(k as nat) <= usize::MAX,
    ensures
        r == pow2(k as nat),
{
    proof {
        let p = pow2(k as nat) as int;
        assert(p <= bound * p) by (nonlinear_arith)
            requires
                bound >= 1,
                p >= 0,
        ;
    }
    pow2_usize(k)
}

/// `2^a <= 2^b` for `a <= b`.
pub proof fn lemma_pow2_monotone(a: nat, b: nat)
    requires
        a <= b,
    ensures
        pow2(a) <= pow2(b),
    decreases b - a,
{
    if a < b {
        lemma_pow2_monotone(a, (b - 1) as nat);
        lemma_pow2_unfold(b);
    }
}

/// Every `2^k` is a power of two.
pub proof fn lemma_pow2_is_pow2(k: nat)
    ensures
        is_pow2(pow2(k) as int),
    decreases k,
{
    reveal(is_pow2);
    vstd::arithmetic::power2::lemma2_to64();
    if k > 0 {
        lemma_pow2_unfold(k);
        lemma_pow2_is_pow2((k - 1) as nat);
    }
}

/// The number whose `num_bits`-bit binary form is that of `n`, read backwards.
///
/// Bits of `n` at or above position `num_bits` play no part.
pub open spec fn spec_reverse_bits(n: nat, num_bits: nat) -> nat
    decreases num_bits,
{
    if num_bits == 0 {
        0
    } else {
        let low = pow2((num_bits - 1) as nat);
        2 * spec_reverse_bits(n % low, (num_bits - 1) as nat) + (n / low) % 2
    }
}

/// The inverse of [`spec_reverse_bits`], peeling bits from the other end.
pub open spec fn spec_unreverse_bits(n: nat, num_bits: nat) -> nat
    decreases num_bits,
{
    if num_bits == 0 {
        0
    } else {
        (n % 2) * pow2((num_bits - 1) as nat) + spec_unreverse_bits(n / 2, (num_bits - 1) as nat)
    }
}

/// A reversed index stays below `2^num_bits`.
pub proof fn lemma_reverse_bits_bound(n: nat, num_bits: nat)
    ensures
        spec_reverse_bits(n, num_bits) < pow2(num_bits),
    decreases num_bits,
{
    vstd::arithmetic::power2::lemma2_to64();
    if num_bits > 0 {
        let low = pow2((num_bits - 1) as nat);
        lemma_pow2_pos((num_bits - 1) as nat);
        lemma_reverse_bits_bound(n % low, (num_bits - 1) as nat);
        lemma_pow2_unfold(num_bits);
    }
}

/// An un-reversed index stays below `2^num_bits`.
pub proof fn lemma_unreverse_bits_bound(n: nat, num_bits: nat)
    ensures
        spec_unreverse_bits(n, num_bits) < pow2(num_bits),
    decreases num_bits,
{
    vstd::arithmetic::power2::lemma2_to64();
    if num_bits > 0 {
        let low = pow2((num_bits - 1) as nat) as int;
        lemma_unreverse_bits_bound(n / 2, (num_bits - 1) as nat);
        lemma_pow2_unfold(num_bits);
        let b = (n % 2) as int;
        assert(b * low <= low) by (nonlinear_arith)
            requires
                0 <= b <= 1,
                low >= 0,
        ;
    }
}

/// Un-reversing a reversed index gives the index back.
pub proof fn lemma_unreverse_reverse(n: nat, num_bits: nat)
    requires
        n < pow2(num_bits),
    ensures
        spec_unreverse_bits(spec_reverse_bits(n, num_bits), num_bits) == n,
    decreases num_bits,
{
    vstd::arithmetic::power2::lemma2_to64();
    if num_bits > 0 {
        let low = pow2((num_bits - 1) as nat);
        lemma_pow2_unfold(num_bits);
        lemma_pow2_pos((num_bits - 1) as nat);
        let top = n / low;
        let rest = n % low;
        assert(top < 2) by (nonlinear_arith)
            requires
                n < 2 * low,
                low > 0,
                top == n / low,
        ;
        lemma_unreverse_reverse(rest, (num_bits - 1) as nat);
        let r = spec_reverse_bits(rest, (num_bits - 1) as nat);
        let v = 2 * r + top % 2;
        assert(v % 2 == top && v / 2 == r);
        assert(n == low * top + rest) by {
            vstd::arithmetic::div_mod::lemma_fundamental_div_mod(n as int, low as int);
        }
        assert(top * low == low * top) by (nonlinear_arith);
    }
}

/// Reversing an un-reversed index gives the index back.
pub proof fn lemma_reverse_unreverse(n: nat, num_bits: nat)
    requires
        n < pow2(num_bits),
    ensures
        spec_reverse_bits(spec_unreverse_bits(n, num_bits), num_bits) == n,
    decreases num_bits,
{
    vstd::arithmetic::power2::lemma2_to64();
    if num_bits > 0 {
        let low = pow2((num_bits - 1) as nat);
        lemma_pow2_unfold(num_bits);
        lemma_pow2_pos((num_bits - 1) as nat);
        let bit = n % 2;
        let rest = spec_unreverse_bits(n / 2, (num_bits - 1) as nat);
        lemma_unreverse_bits_bound(n / 2, (num_bits - 1) as nat);
        lemma_reverse_unreverse(n / 2, (num_bits - 1) as nat);
        let v = bit * low + rest;
        assert(v / low == bit && v % low == rest) by {
            vstd::arithmetic::div_mod::lemma_fundamental_div_mod_converse(
                v as int,
                low as int,
                bit as int,
                rest as int,
            );
            assert(bit * low == low * bit) by (nonlinear_arith);
        }
    }
}

/// The bits of `n` at or above position `num_bits` play no part in its reversal.
pub proof fn lemma_reverse_bits_low(n: nat, num_bits: nat)
    ensures
        spec_reverse_bits(n % pow2(num_bits), num_bits) == spec_reverse_bits(n, num_bits),
{
    vstd::arithmetic::power2::lemma2_to64();
    if num_bits > 0 {
        let low = pow2((num_bits - 1) as nat);
        let next = pow2(num_bits);
        let x = n % next;
        let bit = (n / low) % 2;
        lemma_pow2_unfold(num_bits);
        lemma_pow2_pos((num_bits - 1) as nat);
        vstd::arithmetic::div_mod::lemma_mod_breakdown(n as int, low as int, 2);
        vstd::arithmetic::div_mod::lemma_fundamental_div_mod_converse(
            x as int,
            low as int,
            bit as int,
            (n % low) as int,
        );
        assert(x / low == bit);
        assert(x % low == n % low);
    }
}

/// Reverses the `num_bits`-bit binary form of `n`. Bits of `n` at or
/// above position `num_bits` play no part.
pub fn reverse_bits(n: usize, num_bits: usize) -> (r: usize)
    requires
        pow2(num_bits as nat) <= usize::MAX + 1,
    ensures
        r == spec_reverse_bits(n as nat, num_bits as nat),
        r < pow2(num_bits as nat),
{
    let mut result: usize = 0;
    let mut rest: usize = n;
    let mut k: usize = 0;
    let ghost nn = n as nat;
    proof {
        vstd::arithmetic::power2::lemma2_to64();
        lemma_reverse_bits_bound(nn, num_bits as nat);
    }
    while k < num_bits
        invariant
            k <= num_bits,
            nn == n,
            pow2(num_bits as nat) <= usize::MAX + 1,
            rest == nn / pow2(k as nat),
            result == spec_reverse_bits(nn % pow2(k as nat), k as nat),
        decreases num_bits - k,
    {
        proof {
            let low = pow2(k as nat);
            let next = pow2((k + 1) as nat);
            lemma_pow2_unfold((k + 1) as nat);
            lemma_pow2_pos(k as nat);
            lemma_pow2_monotone((k + 1) as nat, num_bits as nat);
            let x = nn % next;
            let bit = (nn / low) % 2;
            // the low k bits of x are those of n, and its bit k is n's bit k
            assert(low * 2 == next);
            vstd::arithmetic::div_mod::lemma_mod_breakdown(nn as int, low as int, 2);
            assert(x == low * bit + nn % low);
            vstd::arithmetic::div_mod::lemma_fundamental_div_mod_converse(
                x as int,
                low as int,
                bit as int,
                (nn % low) as int,
            );
            assert(x / low == bit);
            assert(x % low == nn % low);
            vstd::arithmetic::div_mod::lemma_div_denominator(nn as int, low as int, 2);
            lemma_reverse_bits_bound(nn % low, k as nat);
            lemma_reverse_bits_bound(x, (k + 1) as nat);
        }
        assert(2 * result + rest % 2 < pow2((k + 1) as nat));
        result = 2 * result + rest % 2;
        rest = rest / 2;
        k = k + 1;
    }
    proof {
        lemma_reverse_bits_low(nn, num_bits as nat);
    }
    result
}

} // verus!
