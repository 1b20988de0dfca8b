//! Dense polynomials whose coefficients lie in the extension field.

use crate::bits::{log2_strict, spec_log2};
use crate::extension::deep;
use crate::field::FieldContext;
use crate::polynomial::PolynomialCoeffs;
use vstd::arithmetic::power2::{is_pow2, lemma_pow2_pos, pow2};
use vstd::prelude::*;

verus! {

/// A polynomial over the extension field in coefficient form, constant term first.
#[derive(Debug)]
pub struct PolynomialCoeffsExt {
    pub coeffs: Vec<Vec<u64>>,
}

/// A polynomial over the extension field in evaluation form.
#[derive(Debug)]
pub struct PolynomialValuesExt {
    pub values: Vec<Vec<u64>>,
}

/// Why a division was refused.
#[derive(Clone, Copy, Debug, PartialEq, Eq, Structural)]
pub enum DivisionError {
    /// The value claimed at the point is not the polynomial's value there:
    /// the division would leave a remainder.
    NonzeroRemainder,
}

/// The base-field polynomial made of the `t`-th coordinate of every coefficient.
pub open spec fn coordinate(coeffs: Seq<Seq<u64>>, t: int) -> Seq<u64> {
    Seq::new(coeffs.len(), |k: int| coeffs[k][t])
}

impl FieldContext {
    /// Horner's rule from the top down to coefficient `k`:
    /// `b_k == b_(k+1) * z + f_k`, with nothing above the top coefficient.
    /// `b_0` is the value at `z`; the `b_k` above it are the coefficients of
    /// the quotient by `X - z`.
    pub open spec fn spec_horner_tail(self, f: Seq<Seq<u64>>, z: Seq<u64>, k: int) -> Seq<u64>
        decreases f.len() - k,
    {
        if k >= f.len() || k < 0 {
            self.spec_ext_zero()
        } else {
            self.spec_ext_add(self.spec_ext_mul(self.spec_horner_tail(f, z, k + 1), z), f[k])
        }
    }

    /// The value of `f` at `z`.
    pub open spec fn spec_ext_eval(self, f: Seq<Seq<u64>>, z: Seq<u64>) -> Seq<u64> {
        self.spec_horner_tail(f, z, 0)
    }

    /// The quotient of `f - f(z)` by `X - z`.
    pub open spec fn spec_quotient(self, f: Seq<Seq<u64>>, z: Seq<u64>) -> Seq<Seq<u64>> {
        Seq::new(
            if f.len() == 0 {
                0
            } else {
                (f.len() - 1) as nat
            },
            |k: int| self.spec_horner_tail(f, z, k + 1),
        )
    }

    /// Every coefficient multiplied by the extension element `s`.
    pub open spec fn spec_poly_scale(self, f: Seq<Seq<u64>>, s: Seq<u64>) -> Seq<Seq<u64>> {
        Seq::new(f.len(), |k: int| self.spec_ext_mul(f[k], s))
    }

    /// The sum of two polynomials, as long as the longer of them.
    pub open spec fn spec_poly_add(self, f: Seq<Seq<u64>>, g: Seq<Seq<u64>>) -> Seq<Seq<u64>> {
        Seq::new(
            if f.len() >= g.len() {
                f.len()
            } else {
                g.len()
            },
            |k: int|
                if k < f.len() && k < g.len() {
                    self.spec_ext_add(f[k], g[k])
                } else if k < f.len() {
                    f[k]
                } else {
                    g[k]
                },
        )
    }

    /// The tail values of Horner's rule are extension elements.
    pub proof fn lemma_horner_tail_is_ext(self, f: Seq<Seq<u64>>, z: Seq<u64>, k: int)
        requires
            self.modulus > 0,
        ensures
            self.is_ext(self.spec_horner_tail(f, z, k)),
        decreases f.len() - k,
    {
        if k >= f.len() || k < 0 {
        } else {
            self.lemma_horner_tail_is_ext(f, z, k + 1);
        }
    }

    /// Division by a linear factor is exact: with `q` the quotient of `f` by
    /// `X - z` and `r` the value of `f` at `z`, `q * (X - z) + r == f`.
    /// Coefficient by coefficient, with `b_k` the tail values of Horner's
    /// rule (`b_0 == r`, `b_(k+1) == q_k`): `f_k == b_k - b_(k+1) * z`.
    pub proof fn lemma_division_is_exact(self, f: Seq<Seq<u64>>, z: Seq<u64>, k: int)
        requires
            self.modulus > 0,
            self.all_ext(f),
            0 <= k < f.len(),
        ensures
            f[k] == self.spec_ext_sub(
                self.spec_horner_tail(f, z, k),
                self.spec_ext_mul(self.spec_horner_tail(f, z, k + 1), z),
            ),
    {
        let above = self.spec_ext_mul(self.spec_horner_tail(f, z, k + 1), z);
        self.lemma_ext_add_sub_cancel(above, f[k]);
    }
}

impl PolynomialCoeffsExt {
    /// The polynomial without coefficients.
    pub fn empty() -> (r: Self)
        ensures
            r.coeffs.len() == 0,
    {
        PolynomialCoeffsExt { coeffs: Vec::new() }
    }

    /// The number of coefficients.
    pub fn len(&self) -> (r: usize)
        ensures
            r == self.coeffs.len(),
    {
        self.coeffs.len()
    }

    /// The value at `z`, by Horner's rule.
    pub fn eval(&self, ctx: &FieldContext, z: &Vec<u64>) -> (r: Vec<u64>)
        requires
            ctx.modulus > 1,
            ctx.is_elem(ctx.w),
            ctx.all_ext(deep(self.coeffs@)),
            ctx.is_ext(z@),
        ensures
            r@ == ctx.spec_ext_eval(deep(self.coeffs@), z@),
            ctx.is_ext(r@),
    {
        let n = self.coeffs.len();
        let mut acc = ctx.ext_zero();
        let mut k: usize = n;
        while k > 0
            invariant
                k <= n,
                n == self.coeffs.len(),
                ctx.modulus > 1,
                ctx.is_elem(ctx.w),
                ctx.all_ext(deep(self.coeffs@)),
                ctx.is_ext(z@),
                ctx.is_ext(acc@),
                acc@ == ctx.spec_horner_tail(deep(self.coeffs@), z@, k as int),
            decreases k,
        {
            k = k - 1;
            let shifted = ctx.ext_mul(&acc, z);
            assert(ctx.is_ext(deep(self.coeffs@)[k as int]));
            acc = ctx.ext_add(&shifted, &self.coeffs[k]);
        }
        acc
    }

    /// The quotient of `self - self(z)` by `X - z`, by synthetic division.
    /// The remainder that the division leaves is the value at `z`, and is dropped.
    pub fn divide_by_linear(&self, ctx: &FieldContext, z: &Vec<u64>) -> (r: Self)
        requires
            ctx.modulus > 1,
            ctx.is_elem(ctx.w),
            ctx.all_ext(deep(self.coeffs@)),
            ctx.is_ext(z@),
        ensures
            deep(r.coeffs@) == ctx.spec_quotient(deep(self.coeffs@), z@),
            ctx.all_ext(deep(r.coeffs@)),
    {
        let n = self.coeffs.len();
        if n == 0 {
            let r = PolynomialCoeffsExt { coeffs: Vec::new() };
            proof {
                assert(deep(r.coeffs@) =~= ctx.spec_quotient(deep(self.coeffs@), z@));
            }
            return r;
        }
        // tails[t] is the tail value b_(n - t): from b_n at the front down to b_1.
        let mut tails: Vec<Vec<u64>> = Vec::new();
        let mut acc = ctx.ext_zero();
        let mut k: usize = n;
        while k > 1
            invariant
                1 <= k <= n,
                n == self.coeffs.len(),
                ctx.modulus > 1,
                ctx.is_elem(ctx.w),
                ctx.all_ext(deep(self.coeffs@)),
                ctx.is_ext(z@),
                ctx.is_ext(acc@),
                acc@ == ctx.spec_horner_tail(deep(self.coeffs@), z@, k as int),
                tails.len() == n - k,
                forall|t: int|
                    0 <= t < tails.len() ==> (#[trigger] tails[t])@ == ctx.spec_horner_tail(
                        deep(self.coeffs@),
                        z@,
                        n - 1 - t,
                    ),
            decreases k,
        {
            k = k - 1;
            let shifted = ctx.ext_mul(&acc, z);
            assert(ctx.is_ext(deep(self.coeffs@)[k as int]));
            acc = ctx.ext_add(&shifted, &self.coeffs[k]);
            tails.push(acc.clone());
        }
        let mut coeffs: Vec<Vec<u64>> = Vec::new();
        let mut j: usize = 0;
        while j < n - 1
            invariant
                j <= n - 1,
                n == self.coeffs.len(),
                tails.len() == n - 1,
                coeffs.len() == j,
                forall|t: int|
                    0 <= t < tails.len() ==> (#[trigger] tails[t])@ == ctx.spec_horner_tail(
                        deep(self.coeffs@),
                        z@,
                        n - 1 - t,
                    ),
                forall|t: int|
                    0 <= t < j ==> (#[trigger] coeffs[t])@ == ctx.spec_horner_tail(
                        deep(self.coeffs@),
                        z@,
                        t + 1,
                    ),
            decreases n - 1 - j,
        {
            coeffs.push(tails[n - 2 - j].clone());
            j = j + 1;
        }
        let r = PolynomialCoeffsExt { coeffs };
        proof {
            assert(deep(r.coeffs@) =~= ctx.spec_quotient(deep(self.coeffs@), z@));
            assert forall|t: int| 0 <= t < r.coeffs.len() implies ctx.is_ext(
                #[trigger] deep(r.coeffs@)[t],
            ) by {
                ctx.lemma_horner_tail_is_ext(deep(self.coeffs@), z@, t + 1);
            }
        }
        r
    }

    /// The quotient of `self - value` by `X - z`, where the division leaves
    /// no remainder, which is where `value` is the value of `self` at `z`.
    pub fn divide_by_linear_checked(
        &self,
        ctx: &FieldContext,
        z: &Vec<u64>,
        value: &Vec<u64>,
    ) -> (r: Result<PolynomialCoeffsExt, DivisionError>)
        requires
            ctx.modulus > 1,
            ctx.is_elem(ctx.w),
            ctx.all_ext(deep(self.coeffs@)),
            ctx.is_ext(z@),
            ctx.is_ext(value@),
        ensures
            r is Ok <==> value@ == ctx.spec_ext_eval(deep(self.coeffs@), z@),
            r matches Ok(quotient) ==> deep(quotient.coeffs@) == ctx.spec_quotient(
                deep(self.coeffs@),
                z@,
            ) && ctx.all_ext(deep(quotient.coeffs@)),
            r matches Err(e) ==> e == DivisionError::NonzeroRemainder,
    {
        let at_z = self.eval(ctx, z);
        let remainder = ctx.ext_sub(&at_z, value);
        let mut zero = true;
        let mut i: usize = 0;
        while i < remainder.len()
            invariant
                i <= remainder.len(),
                remainder.len() == ctx.degree,
                zero <==> forall|t: int| 0 <= t < i ==> remainder[t] == 0,
            decreases remainder.len() - i,
        {
            if remainder[i] != 0 {
                zero = false;
            }
            i = i + 1;
        }
        proof {
            ctx.lemma_ext_sub_zero(at_z@, value@);
            if zero {
                assert(remainder@ =~= ctx.spec_ext_zero());
            } else {
                assert(remainder@ != ctx.spec_ext_zero());
            }
        }
        if zero {
            Ok(self.divide_by_linear(ctx, z))
        } else {
            Err(DivisionError::NonzeroRemainder)
        }
    }

    /// Every coefficient multiplied by the extension element `s`.
    pub fn scale(&self, ctx: &FieldContext, s: &Vec<u64>) -> (r: Self)
        requires
            ctx.modulus > 0,
            ctx.is_elem(ctx.w),
            ctx.all_ext(deep(self.coeffs@)),
            ctx.is_ext(s@),
        ensures
            deep(r.coeffs@) == ctx.spec_poly_scale(deep(self.coeffs@), s@),
            ctx.all_ext(deep(r.coeffs@)),
    {
        let mut coeffs: Vec<Vec<u64>> = Vec::new();
        let mut k: usize = 0;
        while k < self.coeffs.len()
            invariant
                k <= self.coeffs.len(),
                ctx.modulus > 0,
                ctx.is_elem(ctx.w),
                ctx.all_ext(deep(self.coeffs@)),
                ctx.is_ext(s@),
                coeffs.len() == k,
                forall|t: int|
                    0 <= t < k ==> (#[trigger] coeffs[t])@ == ctx.spec_ext_mul(
                        self.coeffs[t]@,
                        s@,
                    ),
            decreases self.coeffs.len() - k,
        {
            assert(ctx.is_ext(deep(self.coeffs@)[k as int]));
            coeffs.push(ctx.ext_mul(&self.coeffs[k], s));
            k = k + 1;
        }
        let r = PolynomialCoeffsExt { coeffs };
        proof {
            assert(deep(r.coeffs@) =~= ctx.spec_poly_scale(deep(self.coeffs@), s@));
        }
        r
    }

    /// The sum of two polynomials, as long as the longer of them.
    pub fn add(&self, ctx: &FieldContext, other: &Self) -> (r: Self)
        requires
            ctx.modulus > 0,
            ctx.all_ext(deep(self.coeffs@)),
            ctx.all_ext(deep(other.coeffs@)),
        ensures
            deep(r.coeffs@) == ctx.spec_poly_add(deep(self.coeffs@), deep(other.coeffs@)),
            ctx.all_ext(deep(r.coeffs@)),
    {
        let a = self.coeffs.len();
        let b = other.coeffs.len();
        let n = if a >= b {
            a
        } else {
            b
        };
        let ghost expected = ctx.spec_poly_add(deep(self.coeffs@), deep(other.coeffs@));
        let mut coeffs: Vec<Vec<u64>> = Vec::new();
        let mut k: usize = 0;
        while k < n
            invariant
                k <= n,
                a == self.coeffs.len(),
                b == other.coeffs.len(),
                n == expected.len(),
                expected == ctx.spec_poly_add(deep(self.coeffs@), deep(other.coeffs@)),
                ctx.modulus > 0,
                ctx.all_ext(deep(self.coeffs@)),
                ctx.all_ext(deep(other.coeffs@)),
                coeffs.len() == k,
                forall|t: int|
                    0 <= t < k ==> (#[trigger] coeffs[t])@ == expected[t] && ctx.is_ext(
                        coeffs[t]@,
                    ),
            decreases n - k,
        {
            if k < a {
                assert(ctx.is_ext(deep(self.coeffs@)[k as int]));
            }
            if k < b {
                assert(ctx.is_ext(deep(other.coeffs@)[k as int]));
            }
            let c = if k < a && k < b {
                ctx.ext_add(&self.coeffs[k], &other.coeffs[k])
            } else if k < a {
                self.coeffs[k].clone()
            } else {
                other.coeffs[k].clone()
            };
            coeffs.push(c);
            k = k + 1;
        }
        let r = PolynomialCoeffsExt { coeffs };
        proof {
            assert(deep(r.coeffs@) =~= expected);
        }
        r
    }

    /// The polynomial times `X`: a zero constant term under the old coefficients.
    pub fn times_x(&self, ctx: &FieldContext) -> (r: Self)
        requires
            ctx.modulus > 1,
            self.coeffs.len() < usize::MAX,
            ctx.all_ext(deep(self.coeffs@)),
        ensures
            deep(r.coeffs@) == seq![ctx.spec_ext_zero()] + deep(self.coeffs@),
            ctx.all_ext(deep(r.coeffs@)),
    {
        let mut coeffs: Vec<Vec<u64>> = Vec::new();
        coeffs.push(ctx.ext_zero());
        let mut k: usize = 0;
        while k < self.coeffs.len()
            invariant
                k <= self.coeffs.len(),
                coeffs.len() == k + 1,
                coeffs[0]@ == ctx.spec_ext_zero(),
                forall|t: int| 0 <= t < k ==> (#[trigger] coeffs[t + 1])@ == self.coeffs[t]@,
            decreases self.coeffs.len() - k,
        {
            coeffs.push(self.coeffs[k].clone());
            k = k + 1;
        }
        let r = PolynomialCoeffsExt { coeffs };
        proof {
            let expected = seq![ctx.spec_ext_zero()] + deep(self.coeffs@);
            assert forall|t: int| 0 <= t < r.coeffs.len() implies deep(r.coeffs@)[t]
                == expected[t] by {
                if t > 0 {
                    assert(r.coeffs[(t - 1) + 1]@ == self.coeffs[t - 1]@);
                }
            }
            assert(deep(r.coeffs@) =~= expected);
            assert forall|t: int| 0 <= t < r.coeffs.len() implies ctx.is_ext(
                #[trigger] deep(r.coeffs@)[t],
            ) by {
                if t > 0 {
                    assert(ctx.is_ext(deep(self.coeffs@)[t - 1]));
                }
            }
        }
        r
    }

    /// The same polynomial with zero coefficients appended up to
    /// `2^rate_bits` times the length.
    pub fn lde(&self, ctx: &FieldContext, rate_bits: usize) -> (r: Self)
        requires
            ctx.modulus > 1,
            self.coeffs.len() * pow2(rate_bits as nat) <= usize::MAX,
            ctx.all_ext(deep(self.coeffs@)),
        ensures
            r.coeffs.len() == self.coeffs.len() * pow2(rate_bits as nat),
            forall|k: int|
                0 <= k < r.coeffs.len() ==> (#[trigger] r.coeffs[k])@ == (if k
                    < self.coeffs.len() {
                    self.coeffs[k]@
                } else {
                    ctx.spec_ext_zero()
                }),
            ctx.all_ext(deep(r.coeffs@)),
    {
        let n = self.coeffs.len();
        proof {
            lemma_pow2_pos(rate_bits as nat);
        }
        let new_len = if n == 0 {
            proof {
                assert(0 * pow2(rate_bits as nat) == 0) by (nonlinear_arith);
            }
            0
        } else {
            n * crate::bits::pow2_usize_checked(rate_bits, n)
        };
        proof {
            let blowup = pow2(rate_bits as nat) as int;
            assert(n * blowup >= n) by (nonlinear_arith)
                requires
                    blowup >= 1,
                    n >= 0,
            ;
        }
        let mut coeffs: Vec<Vec<u64>> = Vec::new();
        let mut k: usize = 0;
        while k < new_len
            invariant
                k <= new_len,
                n == self.coeffs.len(),
                n <= new_len,
                ctx.modulus > 1,
                coeffs.len() == k,
                forall|t: int|
                    0 <= t < k ==> (#[trigger] coeffs[t])@ == (if t < n {
                        self.coeffs[t]@
                    } else {
                        ctx.spec_ext_zero()
                    }),
            decreases new_len - k,
        {
            let c = if k < n {
                self.coeffs[k].clone()
            } else {
                ctx.ext_zero()
            };
            coeffs.push(c);
            k = k + 1;
        }
        let r = PolynomialCoeffsExt { coeffs };
        proof {
            assert forall|t: int| 0 <= t < r.coeffs.len() implies ctx.is_ext(
                #[trigger] deep(r.coeffs@)[t],
            ) by {
                if t < n {
                    assert(ctx.is_ext(deep(self.coeffs@)[t]));
                }
            }
        }
        r
    }

    /// The values over the coset `shift * H` of the subgroup `H` of the
    /// polynomial's length, in natural order. The points lie in the base
    /// field, so each coordinate is transformed by itself.
    pub fn coset_fft(&self, ctx: &FieldContext, shift: u64) -> (r: PolynomialValuesExt)
        requires
            ctx.wf(),
            is_pow2(self.coeffs.len() as int),
            spec_log2(self.coeffs.len() as int) <= ctx.two_adicity,
            ctx.all_ext(deep(self.coeffs@)),
            ctx.is_elem(shift),
        ensures
            r.values.len() == self.coeffs.len(),
            ctx.all_ext(deep(r.values@)),
            forall|i: int, t: int|
                0 <= i < r.values.len() && 0 <= t < ctx.degree ==> #[trigger] r.values[i][t]
                    == ctx.spec_eval(
                    coordinate(deep(self.coeffs@), t),
                    ctx.coset_point(
                        shift,
                        ctx.spec_root_of_unity(spec_log2(self.coeffs.len() as int)),
                        i as nat,
                    ),
                ),
    {
        let n = self.coeffs.len();
        let n_log = log2_strict(n);
        let table = crate::polynomial::fft_root_table(ctx, n_log);
        let ghost root = ctx.spec_root_of_unity(n_log as nat);
        // planes[t] holds the transform of the t-th coordinate
        let mut planes: Vec<Vec<u64>> = Vec::new();
        let mut t: usize = 0;
        while t < ctx.degree
            invariant
                t <= ctx.degree,
                ctx.wf(),
                n == self.coeffs.len(),
                n == pow2(n_log as nat),
                n_log == spec_log2(n as int),
                is_pow2(n as int),
                n_log <= ctx.two_adicity,
                ctx.all_ext(deep(self.coeffs@)),
                ctx.is_elem(shift),
                table.wf(*ctx),
                table.roots.len() == n,
                table.root == root,
                root == ctx.spec_root_of_unity(n_log as nat),
                planes.len() == t,
                forall|u: int|
                    0 <= u < t ==> (#[trigger] planes[u]).len() == n && ctx.all_elems(planes[u]@),
                forall|u: int, i: int|
                    0 <= u < t && 0 <= i < n ==> #[trigger] planes[u][i] == ctx.spec_eval(
                        coordinate(deep(self.coeffs@), u),
                        ctx.coset_point(shift, root, i as nat),
                    ),
            decreases ctx.degree - t,
        {
            let mut plane: Vec<u64> = Vec::new();
            let mut k: usize = 0;
            while k < n
                invariant
                    k <= n,
                    t < ctx.degree,
                    n == self.coeffs.len(),
                    ctx.all_ext(deep(self.coeffs@)),
                    plane.len() == k,
                    ctx.all_elems(plane@),
                    forall|u: int| 0 <= u < k ==> plane[u] == self.coeffs[u][t as int],
                decreases n - k,
            {
                assert(ctx.is_ext(deep(self.coeffs@)[k as int]));
                plane.push(self.coeffs[k][t]);
                k = k + 1;
            }
            proof {
                assert(plane@ =~= coordinate(deep(self.coeffs@), t as int));
            }
            let transformed = PolynomialCoeffs { coeffs: plane }.coset_fft_with_options(
                ctx,
                shift,
                Some(&table),
            );
            planes.push(transformed.values);
            t = t + 1;
        }
        let values = crate::util::transpose_or_empty(&planes, n);
        let r = PolynomialValuesExt { values };
        proof {
            assert forall|i: int| 0 <= i < r.values.len() implies ctx.is_ext(
                #[trigger] deep(r.values@)[i],
            ) by {
                assert forall|u: int| 0 <= u < ctx.degree implies ctx.is_elem(
                    #[trigger] r.values[i][u],
                ) by {
                    assert(r.values[i][u] == planes[u][i]);
                }
            }
        }
        r
    }
}

} // verus!
