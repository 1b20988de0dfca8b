//! The extension field `F[X] / (X^degree - w)`: an element is its `degree`
//! coefficients over the base field, lowest first.

use crate::field::FieldContext;
use vstd::arithmetic::div_mod::{lemma_add_mod_noop, lemma_mul_mod_noop_general, lemma_small_mod};
use vstd::prelude::*;

verus! {

/// The views of the entries of a vector of vectors.
pub open spec fn deep(v: Seq<Vec<u64>>) -> Seq<Seq<u64>> {
    Seq::new(v.len(), |i: int| v[i]@)
}

impl FieldContext {
    /// Whether `a` is an element of the extension field.
    pub open spec fn is_ext(self, a: Seq<u64>) -> bool {
        a.len() == self.degree && self.all_elems(a)
    }

    /// Whether every entry of `s` is an element of the extension field.
    pub open spec fn all_ext(self, s: Seq<Seq<u64>>) -> bool {
        forall|i: int| 0 <= i < s.len() ==> self.is_ext(#[trigger] s[i])
    }

    /// The zero of the extension field.
    pub open spec fn spec_ext_zero(self) -> Seq<u64> {
        Seq::new(self.degree as nat, |i: int| 0u64)
    }

    /// The base-field element `x` as an element of the extension.
    pub open spec fn spec_ext_from_base(self, x: u64) -> Seq<u64> {
        Seq::new(
            self.degree as nat,
            |i: int|
                if i == 0 {
                    x
                } else {
                    0u64
                },
        )
    }

    /// The one of the extension field.
    pub open spec fn spec_ext_one(self) -> Seq<u64> {
        self.spec_ext_from_base(1)
    }

    /// The sum in the extension field, coordinate by coordinate.
    pub open spec fn spec_ext_add(self, a: Seq<u64>, b: Seq<u64>) -> Seq<u64> {
        Seq::new(self.degree as nat, |i: int| self.spec_add(a[i], b[i]))
    }

    /// The difference in the extension field, coordinate by coordinate.
    pub open spec fn spec_ext_sub(self, a: Seq<u64>, b: Seq<u64>) -> Seq<u64> {
        Seq::new(self.degree as nat, |i: int| self.spec_sub(a[i], b[i]))
    }

    /// The product of an extension element and a base-field element.
    pub open spec fn spec_ext_scale(self, a: Seq<u64>, s: u64) -> Seq<u64> {
        Seq::new(self.degree as nat, |i: int| self.spec_mul(a[i], s))
    }

    /// What `a[i]` contributes to coefficient `k` of the product `a * b`:
    /// `a[i] * b[k - i]`, or `w * a[i] * b[k + degree - i]` where the
    /// exponents wrap around `X^degree == w`.
    pub open spec fn ext_mul_term(self, a: Seq<u64>, b: Seq<u64>, k: int, i: int) -> int {
        if i <= k {
            a[i] * b[k - i]
        } else {
            self.w * (a[i] * b[k + self.degree - i])
        }
    }

    /// The contributions of `a[0..n]` to coefficient `k` of the product.
    pub open spec fn ext_mul_sum(self, a: Seq<u64>, b: Seq<u64>, k: int, n: nat) -> int
        decreases n,
    {
        if n == 0 {
            0
        } else {
            self.ext_mul_sum(a, b, k, (n - 1) as nat) + self.ext_mul_term(a, b, k, n - 1)
        }
    }

    /// The product in the extension field.
    pub open spec fn spec_ext_mul(self, a: Seq<u64>, b: Seq<u64>) -> Seq<u64> {
        Seq::new(
            self.degree as nat,
            |k: int| self.reduce(self.ext_mul_sum(a, b, k, self.degree as nat)),
        )
    }

    /// `a` raised to `e`, as `e` successive products.
    pub open spec fn spec_ext_pow(self, a: Seq<u64>, e: nat) -> Seq<u64>
        decreases e,
    {
        if e == 0 {
            self.spec_ext_one()
        } else {
            self.spec_ext_mul(self.spec_ext_pow(a, (e - 1) as nat), a)
        }
    }

    /// The zero of the extension field.
    pub fn ext_zero(&self) -> (r: Vec<u64>)
        requires
            self.modulus > 1,
        ensures
            r@ == self.spec_ext_zero(),
            self.is_ext(r@),
    {
        let r = self.ext_from_base(0);
        proof {
            assert(r@ =~= self.spec_ext_zero());
        }
        r
    }

    /// The one of the extension field.
    pub fn ext_one(&self) -> (r: Vec<u64>)
        requires
            self.modulus > 1,
        ensures
            r@ == self.spec_ext_one(),
            self.is_ext(r@),
    {
        self.ext_from_base(1)
    }

    /// The base-field element `x` as an element of the extension.
    pub fn ext_from_base(&self, x: u64) -> (r: Vec<u64>)
        requires
            self.is_elem(x),
        ensures
            r@ == self.spec_ext_from_base(x),
            self.is_ext(r@),
    {
        let mut r: Vec<u64> = Vec::new();
        let mut i: usize = 0;
        while i < self.degree
            invariant
                i <= self.degree,
                self.is_elem(x),
                r.len() == i,
                forall|t: int|
                    0 <= t < i ==> r[t] == (if t == 0 {
                        x
                    } else {
                        0u64
                    }),
            decreases self.degree - i,
        {
            r.push(
                if i == 0 {
                    x
                } else {
                    0
                },
            );
            i = i + 1;
        }
        proof {
            assert(r@ =~= self.spec_ext_from_base(x));
        }
        r
    }

    /// The sum in the extension field.
    pub fn ext_add(&self, a: &Vec<u64>, b: &Vec<u64>) -> (r: Vec<u64>)
        requires
            self.modulus > 0,
            self.is_ext(a@),
            self.is_ext(b@),
        ensures
            r@ == self.spec_ext_add(a@, b@),
            self.is_ext(r@),
    {
        let mut r: Vec<u64> = Vec::new();
        let mut i: usize = 0;
        while i < self.degree
            invariant
                i <= self.degree,
                self.modulus > 0,
                self.is_ext(a@),
                self.is_ext(b@),
                r.len() == i,
                self.all_elems(r@),
                forall|t: int| 0 <= t < i ==> r[t] == self.spec_add(a[t], b[t]),
            decreases self.degree - i,
        {
            r.push(self.add(a[i], b[i]));
            i = i + 1;
        }
        proof {
            assert(r@ =~= self.spec_ext_add(a@, b@));
        }
        r
    }

    /// The difference in the extension field.
    pub fn ext_sub(&self, a: &Vec<u64>, b: &Vec<u64>) -> (r: Vec<u64>)
        requires
            self.modulus > 0,
            self.is_ext(a@),
            self.is_ext(b@),
        ensures
            r@ == self.spec_ext_sub(a@, b@),
            self.is_ext(r@),
    {
        let mut r: Vec<u64> = Vec::new();
        let mut i: usize = 0;
        while i < self.degree
            invariant
                i <= self.degree,
                self.modulus > 0,
                self.is_ext(a@),
                self.is_ext(b@),
                r.len() == i,
                self.all_elems(r@),
                forall|t: int| 0 <= t < i ==> r[t] == self.spec_sub(a[t], b[t]),
            decreases self.degree - i,
        {
            r.push(self.sub(a[i], b[i]));
            i = i + 1;
        }
        proof {
            assert(r@ =~= self.spec_ext_sub(a@, b@));
        }
        r
    }

    /// The product of an extension element and a base-field element.
    pub fn ext_scale(&self, a: &Vec<u64>, s: u64) -> (r: Vec<u64>)
        requires
            self.modulus > 0,
            self.is_ext(a@),
            self.is_elem(s),
        ensures
            r@ == self.spec_ext_scale(a@, s),
            self.is_ext(r@),
    {
        let mut r: Vec<u64> = Vec::new();
        let mut i: usize = 0;
        while i < self.degree
            invariant
                i <= self.degree,
                self.modulus > 0,
                self.is_ext(a@),
                self.is_elem(s),
                r.len() == i,
                self.all_elems(r@),
                forall|t: int| 0 <= t < i ==> r[t] == self.spec_mul(a[t], s),
            decreases self.degree - i,
        {
            r.push(self.mul(a[i], s));
            i = i + 1;
        }
        proof {
            assert(r@ =~= self.spec_ext_scale(a@, s));
        }
        r
    }

    /// The product in the extension field.
    pub fn ext_mul(&self, a: &Vec<u64>, b: &Vec<u64>) -> (r: Vec<u64>)
        requires
            self.modulus > 0,
            self.is_elem(self.w),
            self.is_ext(a@),
            self.is_ext(b@),
        ensures
            r@ == self.spec_ext_mul(a@, b@),
            self.is_ext(r@),
    {
        let d = self.degree;
        let mut r: Vec<u64> = Vec::new();
        let mut k: usize = 0;
        while k < d
            invariant
                k <= d,
                d == self.degree,
                self.modulus > 0,
                self.is_elem(self.w),
                self.is_ext(a@),
                self.is_ext(b@),
                r.len() == k,
                self.all_elems(r@),
                forall|t: int|
                    0 <= t < k ==> r[t] == self.reduce(self.ext_mul_sum(a@, b@, t, d as nat)),
            decreases d - k,
        {
            let mut acc: u64 = 0;
            let mut i: usize = 0;
            proof {
                lemma_small_mod(0, self.modulus as nat);
            }
            while i < d
                invariant
                    i <= d,
                    k < d,
                    d == self.degree,
                    self.modulus > 0,
                    self.is_elem(self.w),
                    self.is_ext(a@),
                    self.is_ext(b@),
                    self.is_elem(acc),
                    acc == self.reduce(self.ext_mul_sum(a@, b@, k as int, i as nat)),
                decreases d - i,
            {
                let ghost m = self.modulus as int;
                let ghost before = self.ext_mul_sum(a@, b@, k as int, i as nat);
                let ghost term = self.ext_mul_term(a@, b@, k as int, i as int);
                let t = if i <= k {
                    self.mul(a[i], b[k - i])
                } else {
                    let inner = self.mul(a[i], b[d - i + k]);
                    proof {
                        lemma_mul_mod_noop_general(
                            self.w as int,
                            a[i as int] * b[k + d - i],
                            m,
                        );
                        lemma_small_mod(self.w as nat, m as nat);
                    }
                    self.mul(self.w, inner)
                };
                proof {
                    assert(t == self.reduce(term));
                    lemma_add_mod_noop(before, term, m);
                }
                acc = self.add(acc, t);
                i = i + 1;
            }
            r.push(acc);
            k = k + 1;
        }
        proof {
            assert(r@ =~= self.spec_ext_mul(a@, b@));
        }
        r
    }

    /// `a` raised to `e`, by `e` successive products.
    pub fn ext_pow(&self, a: &Vec<u64>, e: usize) -> (r: Vec<u64>)
        requires
            self.modulus > 1,
            self.is_elem(self.w),
            self.is_ext(a@),
        ensures
            r@ == self.spec_ext_pow(a@, e as nat),
            self.is_ext(r@),
    {
        let mut r = self.ext_one();
        let mut k: usize = 0;
        while k < e
            invariant
                k <= e,
                self.modulus > 1,
                self.is_elem(self.w),
                self.is_ext(a@),
                self.is_ext(r@),
                r@ == self.spec_ext_pow(a@, k as nat),
            decreases e - k,
        {
            r = self.ext_mul(&r, a);
            k = k + 1;
        }
        r
    }

    /// A difference is zero where the two elements are the same, and
    /// nowhere else.
    pub proof fn lemma_ext_sub_zero(self, a: Seq<u64>, b: Seq<u64>)
        requires
            self.modulus > 0,
            self.is_ext(a),
            self.is_ext(b),
        ensures
            self.spec_ext_sub(a, b) == self.spec_ext_zero() <==> a == b,
    {
        let m = self.modulus as int;
        let difference = self.spec_ext_sub(a, b);
        if a == b {
            assert forall|i: int| 0 <= i < self.degree implies difference[i] == 0 by {
                lemma_small_mod(0, m as nat);
            }
            assert(difference =~= self.spec_ext_zero());
        }
        if difference == self.spec_ext_zero() {
            assert forall|i: int| 0 <= i < self.degree implies a[i] == b[i] by {
                assert(difference[i] == self.spec_ext_zero()[i]);
                let x = a[i] as int;
                let y = b[i] as int;
                if x >= y {
                    lemma_small_mod((x - y) as nat, m as nat);
                } else {
                    vstd::arithmetic::div_mod::lemma_mod_multiples_vanish(1, x - y, m);
                    lemma_small_mod((x - y + m) as nat, m as nat);
                }
            }
            assert(a =~= b);
        }
    }

    /// Subtracting what was added gives the rest back:
    /// `(x + c) - x == c` for extension elements.
    pub proof fn lemma_ext_add_sub_cancel(self, x: Seq<u64>, c: Seq<u64>)
        requires
            self.modulus > 0,
            self.is_ext(x),
            self.is_ext(c),
        ensures
            self.spec_ext_sub(self.spec_ext_add(x, c), x) == c,
    {
        let m = self.modulus as int;
        let sum = self.spec_ext_add(x, c);
        let back = self.spec_ext_sub(sum, x);
        assert forall|i: int| 0 <= i < self.degree implies back[i] == c[i] by {
            vstd::arithmetic::div_mod::lemma_sub_mod_noop(x[i] + c[i], x[i] as int, m);
            lemma_small_mod(x[i] as nat, m as nat);
            lemma_small_mod(c[i] as nat, m as nat);
        }
        assert(back =~= c);
    }
}

} // verus!
