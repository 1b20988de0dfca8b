//! Random linear combinations by the powers of one extension element.

use crate::extension::deep;
use crate::extension_polynomial::PolynomialCoeffsExt;
use crate::field::FieldContext;
use crate::polynomial::PolynomialCoeffs;
use vstd::prelude::*;

verus! {

/// The coefficient sequences of the polynomials referred to.
pub open spec fn coeffs_of(polys: Seq<&PolynomialCoeffs>) -> Seq<Seq<u64>> {
    Seq::new(polys.len(), |j: int| polys[j].coeffs@)
}

/// Coefficient `c` of a polynomial, zero above its length.
pub open spec fn coeff_or_zero(poly: Seq<u64>, c: int) -> u64 {
    if 0 <= c < poly.len() {
        poly[c]
    } else {
        0
    }
}

/// The length of the longest of the first `count` polynomials.
pub open spec fn max_len(polys: Seq<Seq<u64>>, count: nat) -> nat
    decreases count,
{
    if count == 0 {
        0
    } else {
        let rest = max_len(polys, (count - 1) as nat);
        if polys[count - 1].len() > rest {
            polys[count - 1].len()
        } else {
            rest
        }
    }
}

impl FieldContext {
    /// Coefficient `c` of `sum_j base^j * polys[j]` over the first `count` polynomials.
    pub open spec fn spec_reduce_coeff(
        self,
        base: Seq<u64>,
        polys: Seq<Seq<u64>>,
        count: nat,
        c: int,
    ) -> Seq<u64>
        decreases count,
    {
        if count == 0 {
            self.spec_ext_zero()
        } else {
            self.spec_ext_add(
                self.spec_reduce_coeff(base, polys, (count - 1) as nat, c),
                self.spec_ext_scale(
                    self.spec_ext_pow(base, (count - 1) as nat),
                    coeff_or_zero(polys[count - 1], c),
                ),
            )
        }
    }

    /// The polynomial `sum_j base^j * polys[j]`, as long as the longest summand.
    pub open spec fn spec_reduce_polys(self, base: Seq<u64>, polys: Seq<Seq<u64>>) -> Seq<
        Seq<u64>,
    > {
        Seq::new(
            max_len(polys, polys.len()),
            |c: int| self.spec_reduce_coeff(base, polys, polys.len(), c),
        )
    }
}

/// The base of a random linear combination, with the number of its powers
/// that have been used since the last shift.
#[derive(Debug)]
pub struct ReducingFactor {
    pub base: Vec<u64>,
    pub count: usize,
}

impl ReducingFactor {
    /// A factor with the given base, of which no power was used yet.
    pub fn new(base: Vec<u64>) -> (r: Self)
        ensures
            r.base == base,
            r.count == 0,
    {
        ReducingFactor { base, count: 0 }
    }

    /// The combination `sum_j base^j * polys[j]` of base-field polynomials.
    /// Counts one used power for each of them.
    pub fn reduce_polys_base(
        &mut self,
        ctx: &FieldContext,
        polys: &Vec<&PolynomialCoeffs>,
    ) -> (r: PolynomialCoeffsExt)
        requires
            ctx.modulus > 1,
            ctx.is_elem(ctx.w),
            ctx.is_ext(old(self).base@),
            old(self).count + polys.len() <= usize::MAX,
            forall|j: int| 0 <= j < polys.len() ==> ctx.all_elems((#[trigger] polys[j]).coeffs@),
        ensures
            final(self).base == old(self).base,
            final(self).count == old(self).count + polys.len(),
            deep(r.coeffs@) == ctx.spec_reduce_polys(old(self).base@, coeffs_of(polys@)),
            ctx.all_ext(deep(r.coeffs@)),
    {
        let ghost all = coeffs_of(polys@);
        let count = polys.len();
        // powers[j] == base^j
        let mut powers: Vec<Vec<u64>> = Vec::new();
        let mut longest: usize = 0;
        let mut current = ctx.ext_one();
        let mut j: usize = 0;
        while j < count
            invariant
                j <= count,
                count == polys.len(),
                all == coeffs_of(polys@),
                ctx.modulus > 1,
                ctx.is_elem(ctx.w),
                ctx.is_ext(self.base@),
                ctx.is_ext(current@),
                current@ == ctx.spec_ext_pow(self.base@, j as nat),
                longest == max_len(all, j as nat),
                powers.len() == j,
                forall|t: int|
                    0 <= t < j ==> (#[trigger] powers[t])@ == ctx.spec_ext_pow(
                        self.base@,
                        t as nat,
                    ) && ctx.is_ext(powers[t]@),
            decreases count - j,
        {
            if polys[j].coeffs.len() > longest {
                longest = polys[j].coeffs.len();
            }
            powers.push(current.clone());
            current = ctx.ext_mul(&current, &self.base);
            j = j + 1;
        }
        let mut coeffs: Vec<Vec<u64>> = Vec::new();
        let mut c: usize = 0;
        while c < longest
            invariant
                c <= longest,
                count == polys.len(),
                all == coeffs_of(polys@),
                ctx.modulus > 1,
                ctx.is_ext(self.base@),
                forall|t: int|
                    0 <= t < polys.len() ==> ctx.all_elems((#[trigger] polys[t]).coeffs@),
                powers.len() == count,
                forall|t: int|
                    0 <= t < count ==> (#[trigger] powers[t])@ == ctx.spec_ext_pow(
                        self.base@,
                        t as nat,
                    ) && ctx.is_ext(powers[t]@),
                coeffs.len() == c,
                forall|t: int|
                    0 <= t < c ==> (#[trigger] coeffs[t])@ == ctx.spec_reduce_coeff(
                        self.base@,
                        all,
                        count as nat,
                        t,
                    ) && ctx.is_ext(coeffs[t]@),
            decreases longest - c,
        {
            let mut acc = ctx.ext_zero();
            let mut j: usize = 0;
            while j < count
                invariant
                    j <= count,
                    count == polys.len(),
                    all == coeffs_of(polys@),
                    ctx.modulus > 1,
                    forall|t: int|
                        0 <= t < polys.len() ==> ctx.all_elems((#[trigger] polys[t]).coeffs@),
                    powers.len() == count,
                    forall|t: int|
                        0 <= t < count ==> (#[trigger] powers[t])@ == ctx.spec_ext_pow(
                            self.base@,
                            t as nat,
                        ) && ctx.is_ext(powers[t]@),
                    ctx.is_ext(acc@),
                    acc@ == ctx.spec_reduce_coeff(self.base@, all, j as nat, c as int),
                decreases count - j,
            {
                let poly = polys[j];
                let coefficient = if c < poly.coeffs.len() {
                    poly.coeffs[c]
                } else {
                    0
                };
                assert(ctx.all_elems(polys[j as int].coeffs@));
                assert(coefficient == coeff_or_zero(all[j as int], c as int));
                let term = ctx.ext_scale(&powers[j], coefficient);
                acc = ctx.ext_add(&acc, &term);
                j = j + 1;
            }
            coeffs.push(acc);
            c = c + 1;
        }
        self.count = self.count + count;
        let r = PolynomialCoeffsExt { coeffs };
        proof {
            assert(deep(r.coeffs@) =~= ctx.spec_reduce_polys(self.base@, all));
        }
        r
    }

    /// Multiplies `p` by the power of the base that makes room for the
    /// powers used since the last shift, and starts counting anew.
    pub fn shift_poly(&mut self, ctx: &FieldContext, p: &mut PolynomialCoeffsExt)
        requires
            ctx.modulus > 1,
            ctx.is_elem(ctx.w),
            ctx.is_ext(old(self).base@),
            ctx.all_ext(deep(old(p).coeffs@)),
        ensures
            final(self).base == old(self).base,
            final(self).count == 0,
            deep(final(p).coeffs@) == ctx.spec_poly_scale(
                deep(old(p).coeffs@),
                ctx.spec_ext_pow(old(self).base@, old(self).count as nat),
            ),
            ctx.all_ext(deep(final(p).coeffs@)),
    {
        let factor = ctx.ext_pow(&self.base, self.count);
        let scaled = p.scale(ctx, &factor);
        *p = scaled;
        self.count = 0;
    }
}

} // verus!
