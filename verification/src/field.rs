//! Prime-field arithmetic on canonical `u64` residues.

use vstd::arithmetic::div_mod::{
    lemma_mod_multiples_vanish, lemma_mul_mod_noop_general, lemma_small_mod,
};
use vstd::arithmetic::power::{
    lemma_pow0, lemma_pow1, lemma_pow_adds, lemma_pow_mod_noop, lemma_pow_multiplies, pow,
};
use vstd::arithmetic::power2::{lemma_pow2_adds, lemma_pow2_unfold, pow2};
use vstd::prelude::*;

verus! {

/// The parameters of a prime field with a two-adic multiplicative subgroup,
/// together with the constants that the commitment layer needs from it.
///
/// The extension field is `F[X] / (X^degree - w)`.
#[derive(Clone, Copy, Debug, PartialEq, Eq, Structural)]
pub struct FieldContext {
    /// The field's order.
    pub modulus: u64,
    /// The largest `k` for which the context offers a subgroup of order `2^k`.
    pub two_adicity: usize,
    /// An element whose order divides `2^two_adicity`.
    pub power_of_two_generator: u64,
    /// The shift applied to a subgroup to reach the evaluation coset.
    pub coset_shift: u64,
    /// The degree of the extension field.
    pub degree: usize,
    /// The constant `w` of the extension's defining polynomial.
    pub w: u64,
}

impl FieldContext {
    /// The residue of `x` modulo the field's order.
    pub open spec fn reduce(self, x: int) -> u64 {
        (x % (self.modulus as int)) as u64
    }

    /// Whether `a` is a canonical residue.
    pub open spec fn is_elem(self, a: u64) -> bool {
        a < self.modulus
    }

    /// Whether every entry of `s` is a canonical residue.
    pub open spec fn all_elems(self, s: Seq<u64>) -> bool {
        forall|i: int| 0 <= i < s.len() ==> self.is_elem(#[trigger] s[i])
    }

    /// The sum in the field.
    pub open spec fn spec_add(self, a: u64, b: u64) -> u64 {
        self.reduce(a + b)
    }

    /// The difference in the field.
    pub open spec fn spec_sub(self, a: u64, b: u64) -> u64 {
        self.reduce(a - b)
    }

    /// The additive inverse in the field.
    pub open spec fn spec_neg(self, a: u64) -> u64 {
        self.reduce(-a)
    }

    /// The product in the field.
    pub open spec fn spec_mul(self, a: u64, b: u64) -> u64 {
        self.reduce(a * b)
    }

    /// `b` raised to `e` in the field.
    pub open spec fn spec_pow(self, b: u64, e: nat) -> u64 {
        self.reduce(pow(b as int, e))
    }

    /// The multiplicative inverse of two, `(modulus + 1) / 2`.
    pub open spec fn spec_two_inverse(self) -> u64 {
        ((self.modulus + 1) / 2) as u64
    }

    /// The generator of the subgroup of order `2^n_log`.
    pub open spec fn spec_root_of_unity(self, n_log: nat) -> u64 {
        self.spec_pow(self.power_of_two_generator, pow2((self.two_adicity - n_log) as nat))
    }

    /// The context's invariant: an odd modulus, canonical constants, a
    /// generator whose `2^two_adicity`-th power is one, and a coset shift
    /// whose `2^two_adicity`-th power is not, so that the shift lies in none
    /// of the subgroups.
    pub open spec fn wf(self) -> bool {
        &&& self.modulus > 2
        &&& self.modulus % 2 == 1
        &&& self.two_adicity < 64
        &&& self.is_elem(self.power_of_two_generator)
        &&& self.spec_pow(self.power_of_two_generator, pow2(self.two_adicity as nat)) == 1
        &&& 0 < self.coset_shift < self.modulus
        &&& self.spec_pow(self.coset_shift, pow2(self.two_adicity as nat)) != 1
        &&& self.degree >= 1
        &&& self.is_elem(self.w)
    }

    /// The sum in the field.
    pub fn add(&self, a: u64, b: u64) -> (r: u64)
        requires
            self.modulus > 0,
            self.is_elem(a),
            self.is_elem(b),
        ensures
            r == self.spec_add(a, b),
            self.is_elem(r),
    {
        let wide: u128 = a as u128 + b as u128;
        let r: u128 = wide % (self.modulus as u128);
        r as u64
    }

    /// The difference in the field.
    pub fn sub(&self, a: u64, b: u64) -> (r: u64)
        requires
            self.modulus > 0,
            self.is_elem(a),
            self.is_elem(b),
        ensures
            r == self.spec_sub(a, b),
            self.is_elem(r),
    {
        if a >= b {
            proof {
                lemma_small_mod((a - b) as nat, self.modulus as nat);
            }
            a - b
        } else {
            proof {
                lemma_mod_multiples_vanish(1, a - b, self.modulus as int);
                lemma_small_mod((a - b + self.modulus) as nat, self.modulus as nat);
            }
            self.modulus - (b - a)
        }
    }

    /// The additive inverse in the field.
    pub fn neg(&self, a: u64) -> (r: u64)
        requires
            self.modulus > 0,
            self.is_elem(a),
        ensures
            r == self.spec_neg(a),
            self.is_elem(r),
    {
        if a == 0 {
            proof {
                lemma_small_mod(0, self.modulus as nat);
            }
            0
        } else {
            proof {
                lemma_mod_multiples_vanish(1, -a, self.modulus as int);
                lemma_small_mod((self.modulus - a) as nat, self.modulus as nat);
            }
            self.modulus - a
        }
    }

    /// The product in the field.
    pub fn mul(&self, a: u64, b: u64) -> (r: u64)
        requires
            self.modulus > 0,
            self.is_elem(a),
            self.is_elem(b),
        ensures
            r == self.spec_mul(a, b),
            self.is_elem(r),
    {
        proof {
            assert(a * b <= 0xffff_ffff_ffff_ffff * 0xffff_ffff_ffff_ffff) by (nonlinear_arith)
                requires
                    0 <= a <= 0xffff_ffff_ffff_ffff,
                    0 <= b <= 0xffff_ffff_ffff_ffff,
            ;
        }
        let wide: u128 = (a as u128) * (b as u128);
        let r: u128 = wide % (self.modulus as u128);
        r as u64
    }

    /// `base` raised to `power`, by squaring.
    pub fn exp_u64(&self, base: u64, power: u64) -> (r: u64)
        requires
            self.modulus > 1,
            self.is_elem(base),
        ensures
            r == self.spec_pow(base, power as nat),
            self.is_elem(r),
    {
        let mut result: u64 = 1;
        let mut current: u64 = base;
        let mut e: u64 = power;
        proof {
            lemma_small_mod(1, self.modulus as nat);
            assert(1 * pow(base as int, power as nat) == pow(base as int, power as nat));
        }
        while e > 0
            invariant
                self.modulus > 1,
                self.is_elem(result),
                self.is_elem(current),
                self.reduce(result * pow(current as int, e as nat)) == self.spec_pow(
                    base,
                    power as nat,
                ),
            decreases e,
        {
            let ghost m = self.modulus as int;
            let ghost old_result = result as int;
            let ghost old_current = current as int;
            let ghost old_e = e as nat;
            if e % 2 == 1 {
                result = self.mul(result, current);
                proof {
                    // old_result * c^e == (old_result * c) * c^(e - 1)
                    lemma_pow_adds(old_current, 1, (old_e - 1) as nat);
                    lemma_pow1(old_current);
                    let rest = pow(old_current, (old_e - 1) as nat);
                    assert(old_result * (old_current * rest) == (old_result * old_current) * rest)
                        by (nonlinear_arith);
                    lemma_mul_mod_noop_general(old_result * old_current, rest, m);
                    lemma_mul_mod_noop_general(result as int, rest, m);
                }
            }
            let ghost half = (old_e / 2) as nat;
            proof {
                // c^(2 * half) == (c * c)^half, and squaring commutes with reduction
                lemma_pow_multiplies(old_current, 2, half);
                lemma_pow_adds(old_current, 1, 1);
                lemma_pow1(old_current);
                lemma_pow_mod_noop(old_current * old_current, half, m);
                assert(2 * half == old_e || 2 * half == old_e - 1);
            }
            current = self.mul(current, current);
            e = e / 2;
            proof {
                let r = result as int;
                lemma_mul_mod_noop_general(r, pow(old_current * old_current, half), m);
                lemma_mul_mod_noop_general(r, pow(current as int, half), m);
            }
        }
        proof {
            lemma_pow0(current as int);
            lemma_small_mod(result as nat, self.modulus as nat);
        }
        result
    }

    /// `base` squared `power_log` times.
    pub fn exp_power_of_2(&self, base: u64, power_log: usize) -> (r: u64)
        requires
            self.modulus > 1,
            self.is_elem(base),
        ensures
            r == self.spec_pow(base, pow2(power_log as nat)),
            self.is_elem(r),
    {
        let mut result: u64 = base;
        let mut k: usize = 0;
        proof {
            vstd::arithmetic::power2::lemma2_to64();
            lemma_pow1(base as int);
            lemma_small_mod(base as nat, self.modulus as nat);
        }
        while k < power_log
            invariant
                k <= power_log,
                self.modulus > 1,
                self.is_elem(base),
                self.is_elem(result),
                result == self.spec_pow(base, pow2(k as nat)),
            decreases power_log - k,
        {
            proof {
                self.lemma_pow_double(base, pow2(k as nat));
                lemma_pow2_unfold((k + 1) as nat);
            }
            result = self.mul(result, result);
            k = k + 1;
        }
        result
    }

    /// The multiplicative inverse of two.
    pub fn two_inverse(&self) -> (r: u64)
        requires
            self.modulus > 2,
            self.modulus % 2 == 1,
        ensures
            r == self.spec_two_inverse(),
            self.is_elem(r),
            self.spec_mul(2, r) == 1,
    {
        let r = self.modulus / 2 + 1;
        proof {
            let m = self.modulus as int;
            assert(2 * r == m + 1);
            lemma_mod_multiples_vanish(1, 1, m);
            lemma_small_mod(1, m as nat);
        }
        r
    }

    /// The generator of the subgroup of order `2^n_log`.
    pub fn primitive_root_of_unity(&self, n_log: usize) -> (r: u64)
        requires
            self.wf(),
            n_log <= self.two_adicity,
        ensures
            r == self.spec_root_of_unity(n_log as nat),
            self.is_elem(r),
            self.spec_pow(r, pow2(n_log as nat)) == 1,
    {
        proof {
            self.lemma_root_of_unity_order(n_log as nat);
        }
        self.exp_power_of_2(self.power_of_two_generator, self.two_adicity - n_log)
    }

    /// The inverse of `a`, where the Fermat candidate `a^(modulus - 2)` is one.
    pub fn try_inverse(&self, a: u64) -> (r: Option<u64>)
        requires
            self.modulus > 2,
            self.is_elem(a),
        ensures
            r == self.spec_try_inverse(a),
            r matches Some(inv) ==> self.is_elem(inv) && self.spec_mul(a, inv) == 1,
    {
        let candidate = self.exp_u64(a, self.modulus - 2);
        if self.mul(a, candidate) == 1 {
            Some(candidate)
        } else {
            None
        }
    }

    /// A context over the given constants, if they satisfy the invariant.
    pub fn new(
        modulus: u64,
        two_adicity: usize,
        power_of_two_generator: u64,
        coset_shift: u64,
        degree: usize,
        w: u64,
    ) -> (r: Option<FieldContext>)
        ensures
            r == if (FieldContext {
                modulus,
                two_adicity,
                power_of_two_generator,
                coset_shift,
                degree,
                w,
            }).wf() {
                Some(
                    FieldContext {
                        modulus,
                        two_adicity,
                        power_of_two_generator,
                        coset_shift,
                        degree,
                        w,
                    },
                )
            } else {
                None
            },
    {
        let ctx = FieldContext {
            modulus,
            two_adicity,
            power_of_two_generator,
            coset_shift,
            degree,
            w,
        };
        if modulus <= 2 || modulus % 2 != 1 || two_adicity >= 64 || power_of_two_generator
            >= modulus || coset_shift == 0 || coset_shift >= modulus || degree < 1 || w >= modulus {
            return None;
        }
        if ctx.exp_power_of_2(power_of_two_generator, two_adicity) != 1 {
            return None;
        }
        if ctx.exp_power_of_2(coset_shift, two_adicity) == 1 {
            return None;
        }
        Some(ctx)
    }

    /// What [`FieldContext::try_inverse`] returns.
    pub open spec fn spec_try_inverse(self, a: u64) -> Option<u64> {
        let candidate = self.spec_pow(a, (self.modulus - 2) as nat);
        if self.spec_mul(a, candidate) == 1 {
            Some(candidate)
        } else {
            None
        }
    }

    /// A canonical residue is its own reduction.
    pub proof fn lemma_reduce_elem(self, a: u64)
        requires
            self.is_elem(a),
        ensures
            self.reduce(a as int) == a,
    {
        lemma_small_mod(a as nat, self.modulus as nat);
    }

    /// `b^(2e) == (b^e)^2` in the field.
    pub proof fn lemma_pow_double(self, b: u64, e: nat)
        requires
            self.modulus > 0,
        ensures
            self.spec_pow(b, 2 * e) == self.spec_mul(self.spec_pow(b, e), self.spec_pow(b, e)),
    {
        lemma_pow_adds(b as int, e, e);
        lemma_mul_mod_noop_general(pow(b as int, e), pow(b as int, e), self.modulus as int);
    }

    /// `b^(e1 + e2) == b^e1 * b^e2` in the field.
    pub proof fn lemma_pow_sum(self, b: u64, e1: nat, e2: nat)
        requires
            self.modulus > 0,
        ensures
            self.spec_pow(b, e1 + e2) == self.spec_mul(self.spec_pow(b, e1), self.spec_pow(b, e2)),
    {
        lemma_pow_adds(b as int, e1, e2);
        lemma_mul_mod_noop_general(pow(b as int, e1), pow(b as int, e2), self.modulus as int);
    }

    /// `(b^e1)^e2 == b^(e1 * e2)` in the field.
    pub proof fn lemma_pow_of_pow(self, b: u64, e1: nat, e2: nat)
        requires
            self.modulus > 0,
        ensures
            self.spec_pow(self.spec_pow(b, e1), e2) == self.spec_pow(b, e1 * e2),
    {
        lemma_pow_mod_noop(pow(b as int, e1), e2, self.modulus as int);
        lemma_pow_multiplies(b as int, e1, e2);
    }

    /// Every power of the generator of a subgroup has `2^two_adicity`-th power one.
    pub proof fn lemma_subgroup_element_order(self, n_log: nat, j: nat)
        requires
            self.wf(),
            n_log <= self.two_adicity,
        ensures
            self.spec_pow(
                self.spec_pow(self.spec_root_of_unity(n_log), j),
                pow2(self.two_adicity as nat),
            ) == 1,
    {
        let root = self.spec_root_of_unity(n_log);
        let top = pow2(self.two_adicity as nat);
        let rest = (self.two_adicity - n_log) as nat;
        let m = self.modulus as int;
        // root^top == (root^(2^n_log))^(2^rest) == 1
        self.lemma_root_of_unity_order(n_log);
        self.lemma_pow_of_pow(root, pow2(n_log), pow2(rest));
        lemma_pow2_adds(n_log, rest);
        vstd::arithmetic::power::lemma1_pow(pow2(rest));
        vstd::arithmetic::power::lemma1_pow(j);
        lemma_small_mod(1, m as nat);
        assert(self.spec_pow(root, top) == 1);
        // (root^j)^top == (root^top)^j == 1
        self.lemma_pow_of_pow(root, j, top);
        self.lemma_pow_of_pow(root, top, j);
        assert(j * top == top * j) by (nonlinear_arith);
    }

    /// The evaluation coset meets no subgroup: no point of the coset of the
    /// subgroup of order `2^n_log` is a power of the generator of the
    /// subgroup of order `2^m_log`.
    pub proof fn lemma_coset_avoids_subgroups(self, n_log: nat, i: nat, m_log: nat, j: nat)
        requires
            self.wf(),
            n_log <= self.two_adicity,
            m_log <= self.two_adicity,
        ensures
            self.spec_mul(self.coset_shift, self.spec_pow(self.spec_root_of_unity(n_log), i))
                != self.spec_pow(self.spec_root_of_unity(m_log), j),
    {
        let top = pow2(self.two_adicity as nat);
        let m = self.modulus as int;
        let shift = self.coset_shift as int;
        let inside = self.spec_pow(self.spec_root_of_unity(n_log), i);
        let point = self.spec_mul(self.coset_shift, inside);
        self.lemma_subgroup_element_order(n_log, i);
        self.lemma_subgroup_element_order(m_log, j);
        // point^top == shift^top * inside^top == shift^top
        vstd::arithmetic::power::lemma_pow_distributes(shift, inside as int, top);
        lemma_pow_mod_noop(shift * (inside as int), top, m);
        lemma_mul_mod_noop_general(pow(shift, top), pow(inside as int, top), m);
        let shifted = self.spec_pow(self.coset_shift, top);
        assert(shifted * 1 == shifted);
        lemma_small_mod(shifted as nat, m as nat);
        assert(self.spec_pow(point, top) == shifted);
    }

    /// The `2^n_log`-th power of the subgroup's generator is one.
    pub proof fn lemma_root_of_unity_order(self, n_log: nat)
        requires
            self.wf(),
            n_log <= self.two_adicity,
        ensures
            self.spec_pow(self.spec_root_of_unity(n_log), pow2(n_log)) == 1,
    {
        let rest = (self.two_adicity - n_log) as nat;
        self.lemma_pow_of_pow(self.power_of_two_generator, pow2(rest), pow2(n_log));
        lemma_pow2_adds(rest, n_log);
    }
}

/// The order of the Goldilocks field, `2^64 - 2^32 + 1`.
pub const GOLDILOCKS_ORDER: u64 = 0xFFFF_FFFF_0000_0001;

/// A generator of the Goldilocks field's subgroup of order `2^32`.
pub const GOLDILOCKS_POWER_OF_TWO_GENERATOR: u64 = 1753635133440165772;

impl FieldContext {
    /// One squaring in a chain of powers of `base`.
    proof fn lemma_square_step(self, base: u64, k: nat, c: u64, c2: u64)
        requires
            self.modulus > 0,
            self.spec_pow(base, pow2(k)) == c,
            (c * c) % (self.modulus as int) == c2,
        ensures
            self.spec_pow(base, pow2(k + 1)) == c2,
    {
        self.lemma_pow_double(base, pow2(k));
        lemma_pow2_unfold(k + 1);
    }

    /// The Goldilocks field with its extension of the given degree over `X^degree - 7`.
    pub fn goldilocks(degree: usize) -> (ctx: FieldContext)
        requires
            degree >= 1,
        ensures
            ctx.wf(),
            ctx.modulus == GOLDILOCKS_ORDER,
            ctx.two_adicity == 32,
            ctx.power_of_two_generator == GOLDILOCKS_POWER_OF_TWO_GENERATOR,
            ctx.coset_shift == 7,
            ctx.degree == degree,
            ctx.w == 7,
    {
        let ctx = FieldContext {
            modulus: GOLDILOCKS_ORDER,
            two_adicity: 32,
            power_of_two_generator: GOLDILOCKS_POWER_OF_TWO_GENERATOR,
            coset_shift: 7,
            degree,
            w: 7,
        };
        proof {
            ctx.lemma_goldilocks_generator_order();
            ctx.lemma_goldilocks_shift_order();
        }
        ctx
    }

    /// The `2^32`-th power of the Goldilocks coset shift is not one.
    #[verifier::rlimit(50)]
    proof fn lemma_goldilocks_shift_order(self)
        requires
            self.modulus == GOLDILOCKS_ORDER,
        ensures
            self.spec_pow(7, pow2(32)) == 12275445934081160404,
    {
        let ctx = self;
        vstd::arithmetic::power2::lemma2_to64();
        lemma_pow1(7);
        lemma_small_mod(7, GOLDILOCKS_ORDER as nat);
        ctx.lemma_square_step(7, 0, 7, 49);
        ctx.lemma_square_step(7, 1, 49, 2401);
        ctx.lemma_square_step(7, 2, 2401, 5764801);
        ctx.lemma_square_step(7, 3, 5764801, 33232930569601);
        ctx.lemma_square_step(7, 4, 33232930569601, 3732854072722565977);
        ctx.lemma_square_step(7, 5, 3732854072722565977, 11250886851934520606);
        ctx.lemma_square_step(7, 6, 11250886851934520606, 12159723539389677939);
        ctx.lemma_square_step(7, 7, 12159723539389677939, 1536671775522476176);
        ctx.lemma_square_step(7, 8, 1536671775522476176, 18371408314118145657);
        ctx.lemma_square_step(7, 9, 18371408314118145657, 2431605942540367610);
        ctx.lemma_square_step(7, 10, 2431605942540367610, 6358221588783459004);
        ctx.lemma_square_step(7, 11, 6358221588783459004, 10083885515493449909);
        ctx.lemma_square_step(7, 12, 10083885515493449909, 15094611910849701842);
        ctx.lemma_square_step(7, 13, 15094611910849701842, 18060412910171584788);
        ctx.lemma_square_step(7, 14, 18060412910171584788, 10529651373896570371);
        ctx.lemma_square_step(7, 15, 10529651373896570371, 11156834669773791359);
        ctx.lemma_square_step(7, 16, 11156834669773791359, 11840798296997857860);
        ctx.lemma_square_step(7, 17, 11840798296997857860, 1447330804268045396);
        ctx.lemma_square_step(7, 18, 1447330804268045396, 15265864706138236984);
        ctx.lemma_square_step(7, 19, 15265864706138236984, 12990112920302977158);
        ctx.lemma_square_step(7, 20, 12990112920302977158, 16491641580159807679);
        ctx.lemma_square_step(7, 21, 16491641580159807679, 17642952523097762870);
        ctx.lemma_square_step(7, 22, 17642952523097762870, 4419967652436713981);
        ctx.lemma_square_step(7, 23, 4419967652436713981, 7206579306846404579);
        ctx.lemma_square_step(7, 24, 7206579306846404579, 17869454728573311546);
        ctx.lemma_square_step(7, 25, 17869454728573311546, 4919185416341570378);
        ctx.lemma_square_step(7, 26, 4919185416341570378, 14445320067108370181);
        ctx.lemma_square_step(7, 27, 14445320067108370181, 17666966662873528270);
        ctx.lemma_square_step(7, 28, 17666966662873528270, 5473358340599679662);
        ctx.lemma_square_step(7, 29, 5473358340599679662, 4120449531758749877);
        ctx.lemma_square_step(7, 30, 4120449531758749877, 17380019310548783236);
        ctx.lemma_square_step(7, 31, 17380019310548783236, 12275445934081160404);
    }

    /// The Goldilocks subgroup generator has order dividing `2^32`.
    #[verifier::rlimit(50)]
    proof fn lemma_goldilocks_generator_order(self)
        requires
            self.modulus == GOLDILOCKS_ORDER,
            self.power_of_two_generator == GOLDILOCKS_POWER_OF_TWO_GENERATOR,
        ensures
            self.spec_pow(self.power_of_two_generator, pow2(32)) == 1,
    {
        let ctx = self;
        vstd::arithmetic::power2::lemma2_to64();
        lemma_pow1(GOLDILOCKS_POWER_OF_TWO_GENERATOR as int);
        lemma_small_mod(GOLDILOCKS_POWER_OF_TWO_GENERATOR as nat, GOLDILOCKS_ORDER as nat);
        ctx.lemma_square_step(GOLDILOCKS_POWER_OF_TWO_GENERATOR, 0, 1753635133440165772, 4614640910117430873);
        ctx.lemma_square_step(GOLDILOCKS_POWER_OF_TWO_GENERATOR, 1, 4614640910117430873, 9123114210336311365);
        ctx.lemma_square_step(GOLDILOCKS_POWER_OF_TWO_GENERATOR, 2, 9123114210336311365, 16116352524544190054);
        ctx.lemma_square_step(GOLDILOCKS_POWER_OF_TWO_GENERATOR, 3, 16116352524544190054, 6414415596519834757);
        ctx.lemma_square_step(GOLDILOCKS_POWER_OF_TWO_GENERATOR, 4, 6414415596519834757, 1213594585890690845);
        ctx.lemma_square_step(GOLDILOCKS_POWER_OF_TWO_GENERATOR, 5, 1213594585890690845, 17096174751763063430);
        ctx.lemma_square_step(GOLDILOCKS_POWER_OF_TWO_GENERATOR, 6, 17096174751763063430, 5456943929260765144);
        ctx.lemma_square_step(GOLDILOCKS_POWER_OF_TWO_GENERATOR, 7, 5456943929260765144, 9713644485405565297);
        ctx.lemma_square_step(GOLDILOCKS_POWER_OF_TWO_GENERATOR, 8, 9713644485405565297, 16905767614792059275);
        ctx.lemma_square_step(GOLDILOCKS_POWER_OF_TWO_GENERATOR, 9, 16905767614792059275, 5416168637041100469);
        ctx.lemma_square_step(GOLDILOCKS_POWER_OF_TWO_GENERATOR, 10, 5416168637041100469, 17654865857378133588);
        ctx.lemma_square_step(GOLDILOCKS_POWER_OF_TWO_GENERATOR, 11, 17654865857378133588, 3511170319078647661);
        ctx.lemma_square_step(GOLDILOCKS_POWER_OF_TWO_GENERATOR, 12, 3511170319078647661, 18146160046829613826);
        ctx.lemma_square_step(GOLDILOCKS_POWER_OF_TWO_GENERATOR, 13, 18146160046829613826, 9306717745644682924);
        ctx.lemma_square_step(GOLDILOCKS_POWER_OF_TWO_GENERATOR, 14, 9306717745644682924, 12380578893860276750);
        ctx.lemma_square_step(GOLDILOCKS_POWER_OF_TWO_GENERATOR, 15, 12380578893860276750, 6115771955107415310);
        ctx.lemma_square_step(GOLDILOCKS_POWER_OF_TWO_GENERATOR, 16, 6115771955107415310, 17776499369601055404);
        ctx.lemma_square_step(GOLDILOCKS_POWER_OF_TWO_GENERATOR, 17, 17776499369601055404, 16207902636198568418);
        ctx.lemma_square_step(GOLDILOCKS_POWER_OF_TWO_GENERATOR, 18, 16207902636198568418, 1532612707718625687);
        ctx.lemma_square_step(GOLDILOCKS_POWER_OF_TWO_GENERATOR, 19, 1532612707718625687, 17492915097719143606);
        ctx.lemma_square_step(GOLDILOCKS_POWER_OF_TWO_GENERATOR, 20, 17492915097719143606, 455906449640507599);
        ctx.lemma_square_step(GOLDILOCKS_POWER_OF_TWO_GENERATOR, 21, 455906449640507599, 11353340290879379826);
        ctx.lemma_square_step(GOLDILOCKS_POWER_OF_TWO_GENERATOR, 22, 11353340290879379826, 1803076106186727246);
        ctx.lemma_square_step(GOLDILOCKS_POWER_OF_TWO_GENERATOR, 23, 1803076106186727246, 13797081185216407910);
        ctx.lemma_square_step(GOLDILOCKS_POWER_OF_TWO_GENERATOR, 24, 13797081185216407910, 17870292113338400769);
        ctx.lemma_square_step(GOLDILOCKS_POWER_OF_TWO_GENERATOR, 25, 17870292113338400769, 549755813888);
        ctx.lemma_square_step(GOLDILOCKS_POWER_OF_TWO_GENERATOR, 26, 549755813888, 70368744161280);
        ctx.lemma_square_step(GOLDILOCKS_POWER_OF_TWO_GENERATOR, 27, 70368744161280, 17293822564807737345);
        ctx.lemma_square_step(GOLDILOCKS_POWER_OF_TWO_GENERATOR, 28, 17293822564807737345, 18446744069397807105);
        ctx.lemma_square_step(GOLDILOCKS_POWER_OF_TWO_GENERATOR, 29, 18446744069397807105, 281474976710656);
        ctx.lemma_square_step(GOLDILOCKS_POWER_OF_TWO_GENERATOR, 30, 281474976710656, 18446744069414584320);
        ctx.lemma_square_step(GOLDILOCKS_POWER_OF_TWO_GENERATOR, 31, 18446744069414584320, 1);
    }
}

/// A 64-bit word from `rand::random`, which draws from the thread-local
/// generator. Nothing is claimed of the word drawn.
#[verifier::external_body]
fn random_u64() -> (r: u64) {
    rand::random::<u64>()
}

impl FieldContext {
    /// The field element that a 64-bit word stands for: its residue.
    pub fn from_noncanonical_u64(&self, word: u64) -> (r: u64)
        requires
            self.modulus > 0,
        ensures
            r == self.reduce(word as int),
            self.is_elem(r),
    {
        word % self.modulus
    }

    /// A randomly drawn field element: the residue of a word drawn from the
    /// thread-local generator. Which element comes is left open; two calls
    /// may differ.
    pub fn rand(&self) -> (r: u64)
        requires
            self.modulus > 0,
        ensures
            self.is_elem(r),
    {
        let word = random_u64();
        self.from_noncanonical_u64(word)
    }

    /// `n` randomly drawn field elements.
    pub fn rand_vec(&self, n: usize) -> (r: Vec<u64>)
        requires
            self.modulus > 0,
        ensures
            r.len() == n,
            self.all_elems(r@),
    {
        let mut out: Vec<u64> = Vec::new();
        let mut i: usize = 0;
        while i < n
            invariant
                i <= n,
                self.modulus > 0,
                out.len() == i,
                self.all_elems(out@),
            decreases n - i,
        {
            out.push(self.rand());
            i = i + 1;
        }
        out
    }
}

} // verus!
