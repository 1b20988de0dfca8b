//! Dense polynomials over the base field, in coefficient and in evaluation form.

use crate::bits::{log2_strict, spec_log2};
use crate::field::FieldContext;
use vstd::arithmetic::div_mod::{
    lemma_add_mod_noop, lemma_mul_mod_noop_general, lemma_small_mod,
};
use vstd::arithmetic::power::{lemma_pow0, lemma_pow1, lemma_pow_adds, pow};
use vstd::arithmetic::power2::{is_pow2, lemma_pow2_pos, lemma_pow2_unfold, pow2};
use vstd::prelude::*;

verus! {

/// The value at `x` of the integer polynomial with the given coefficients,
/// constant term first.
pub open spec fn eval_int(coeffs: Seq<u64>, x: int) -> int
    decreases coeffs.len(),
{
    if coeffs.len() == 0 {
        0
    } else {
        coeffs[0] + x * eval_int(coeffs.drop_first(), x)
    }
}

/// The coefficients at even positions.
pub open spec fn even_part(coeffs: Seq<u64>) -> Seq<u64> {
    Seq::new(((coeffs.len() + 1) / 2) as nat, |k: int| coeffs[2 * k])
}

/// The coefficients at odd positions.
pub open spec fn odd_part(coeffs: Seq<u64>) -> Seq<u64> {
    Seq::new((coeffs.len() / 2) as nat, |k: int| coeffs[2 * k + 1])
}

/// `count` zero coefficients.
pub open spec fn zeros(count: nat) -> Seq<u64> {
    Seq::new(count, |k: int| 0u64)
}

impl FieldContext {
    /// The value in the field of the polynomial `coeffs` at `x`.
    pub open spec fn spec_eval(self, coeffs: Seq<u64>, x: u64) -> u64 {
        self.reduce(eval_int(coeffs, x as int))
    }

    /// The `i`-th point of the coset `shift * <root>`.
    pub open spec fn coset_point(self, shift: u64, root: u64, i: nat) -> u64 {
        self.spec_mul(shift, self.spec_pow(root, i))
    }
}

/// A polynomial splits into its even and odd halves:
/// `p(x) == p_even(x^2) + x * p_odd(x^2)`.
pub proof fn lemma_eval_split(coeffs: Seq<u64>, x: int)
    requires
        coeffs.len() % 2 == 0,
    ensures
        eval_int(coeffs, x) == eval_int(even_part(coeffs), x * x) + x * eval_int(
            odd_part(coeffs),
            x * x,
        ),
    decreases coeffs.len(),
{
    if coeffs.len() > 0 {
        let tail = coeffs.drop_first();
        let rest = tail.drop_first();
        lemma_eval_split(rest, x);
        assert(even_part(coeffs).drop_first() =~= even_part(rest));
        assert(odd_part(coeffs).drop_first() =~= odd_part(rest));
        let a = eval_int(even_part(rest), x * x);
        let b = eval_int(odd_part(rest), x * x);
        let r = eval_int(rest, x);
        let c0 = coeffs[0] as int;
        let c1 = coeffs[1] as int;
        assert(tail[0] == coeffs[1]);
        assert(eval_int(tail, x) == c1 + x * r);
        assert(eval_int(coeffs, x) == c0 + x * (c1 + x * r));
        assert(eval_int(even_part(coeffs), x * x) == c0 + (x * x) * a);
        assert(eval_int(odd_part(coeffs), x * x) == c1 + (x * x) * b);
        assert(c0 + x * (c1 + x * r) == (c0 + (x * x) * a) + x * (c1 + (x * x) * b))
            by (nonlinear_arith)
            requires
                r == a + x * b,
        ;
    } else {
        assert(x * 0 == 0);
    }
}

/// Congruent points give congruent values.
pub proof fn lemma_eval_congruent(coeffs: Seq<u64>, x: int, y: int, m: int)
    requires
        m > 0,
        x % m == y % m,
    ensures
        eval_int(coeffs, x) % m == eval_int(coeffs, y) % m,
    decreases coeffs.len(),
{
    if coeffs.len() > 0 {
        let rest = coeffs.drop_first();
        lemma_eval_congruent(rest, x, y, m);
        let ex = eval_int(rest, x);
        let ey = eval_int(rest, y);
        lemma_mul_mod_noop_general(x, ex, m);
        lemma_mul_mod_noop_general(y, ey, m);
        lemma_add_mod_noop(coeffs[0] as int, x * ex, m);
        lemma_add_mod_noop(coeffs[0] as int, y * ey, m);
    }
}

/// Zero coefficients appended at the top do not change a polynomial's values.
pub proof fn lemma_eval_padded(coeffs: Seq<u64>, count: nat, x: int)
    ensures
        eval_int(coeffs + zeros(count), x) == eval_int(coeffs, x),
    decreases coeffs.len() + count,
{
    let padded = coeffs + zeros(count);
    if coeffs.len() > 0 {
        assert(padded.drop_first() =~= coeffs.drop_first() + zeros(count));
        lemma_eval_padded(coeffs.drop_first(), count, x);
    } else if count > 0 {
        assert(padded.drop_first() =~= coeffs + zeros((count - 1) as nat));
        lemma_eval_padded(coeffs, (count - 1) as nat, x);
        assert(x * 0 == 0);
    } else {
        assert(padded =~= coeffs);
    }
}

/// One butterfly of the fast Fourier transform: from the values of the even
/// and odd halves at `x^2` to the value of the whole at `x`.
pub proof fn lemma_butterfly(ctx: FieldContext, coeffs: Seq<u64>, x: u64, y: u64, e: u64, o: u64)
    requires
        ctx.modulus > 0,
        coeffs.len() % 2 == 0,
        y == ctx.spec_mul(x, x),
        e == ctx.spec_eval(even_part(coeffs), y),
        o == ctx.spec_eval(odd_part(coeffs), y),
    ensures
        ctx.spec_add(e, ctx.spec_mul(x, o)) == ctx.spec_eval(coeffs, x),
{
    let m = ctx.modulus as int;
    let xi = x as int;
    let a = eval_int(even_part(coeffs), xi * xi);
    let b = eval_int(odd_part(coeffs), xi * xi);
    lemma_eval_split(coeffs, xi);
    lemma_small_mod(y as nat, m as nat);
    lemma_eval_congruent(even_part(coeffs), y as int, xi * xi, m);
    lemma_eval_congruent(odd_part(coeffs), y as int, xi * xi, m);
    lemma_mul_mod_noop_general(xi, b, m);
    lemma_add_mod_noop(a, xi * b, m);
    assert((xi * (o as int)) % m == (xi * b) % m) by {
        lemma_mul_mod_noop_general(xi, o as int, m);
        lemma_small_mod(o as nat, m as nat);
    }
}

/// A polynomial in coefficient form, constant term first.
#[derive(Clone, Debug)]
pub struct PolynomialCoeffs {
    pub coeffs: Vec<u64>,
}

/// A polynomial in evaluation form over a subgroup or one of its cosets.
#[derive(Clone, Debug)]
pub struct PolynomialValues {
    pub values: Vec<u64>,
}

/// The powers of a root of unity, computed once and shared between transforms.
pub struct FftRootTable {
    /// The generator `root` of the subgroup.
    pub root: u64,
    /// `roots[j] == root^j`.
    pub roots: Vec<u64>,
}

impl FftRootTable {
    /// The table holds every power of `root`, and `root`'s order divides its length.
    pub open spec fn wf(self, ctx: FieldContext) -> bool {
        &&& self.roots.len() >= 1
        &&& ctx.is_elem(self.root)
        &&& forall|j: int|
            0 <= j < self.roots.len() ==> #[trigger] self.roots[j] == ctx.spec_pow(
                self.root,
                j as nat,
            )
        &&& ctx.spec_pow(self.root, self.roots.len() as nat) == 1
    }
}

/// The table of the subgroup of order `2^n_log`.
pub fn fft_root_table(ctx: &FieldContext, n_log: usize) -> (table: FftRootTable)
    requires
        ctx.wf(),
        n_log <= ctx.two_adicity,
        pow2(n_log as nat) <= usize::MAX,
    ensures
        table.wf(*ctx),
        table.root == ctx.spec_root_of_unity(n_log as nat),
        table.roots.len() == pow2(n_log as nat),
{
    let root = ctx.primitive_root_of_unity(n_log);
    let n = crate::bits::pow2_usize(n_log);
    let mut roots: Vec<u64> = Vec::new();
    let mut current: u64 = 1;
    let mut j: usize = 0;
    proof {
        lemma_pow0(root as int);
        lemma_small_mod(1, ctx.modulus as nat);
        lemma_pow2_pos(n_log as nat);
    }
    while j < n
        invariant
            j <= n,
            ctx.modulus > 1,
            ctx.is_elem(root),
            roots.len() == j,
            current == ctx.spec_pow(root, j as nat),
            forall|k: int| 0 <= k < j ==> #[trigger] roots[k] == ctx.spec_pow(root, k as nat),
        decreases n - j,
    {
        roots.push(current);
        proof {
            ctx.lemma_pow_sum(root, j as nat, 1);
            lemma_pow1(root as int);
            lemma_small_mod(root as nat, ctx.modulus as nat);
        }
        current = ctx.mul(current, root);
        j = j + 1;
    }
    FftRootTable { root, roots }
}

/// The evaluations of `coeffs` over the coset `shift * <root^stride>`, in natural order.
#[verifier::rlimit(40)]
fn fft_recursive(
    ctx: &FieldContext,
    coeffs: &Vec<u64>,
    n_log: usize,
    shift: u64,
    table: &FftRootTable,
    stride: usize,
) -> (values: Vec<u64>)
    requires
        ctx.modulus > 1,
        table.wf(*ctx),
        coeffs.len() == pow2(n_log as nat),
        coeffs.len() * stride == table.roots.len(),
        ctx.all_elems(coeffs@),
        ctx.is_elem(shift),
    ensures
        values.len() == coeffs.len(),
        ctx.all_elems(values@),
        forall|i: int|
            0 <= i < values.len() ==> #[trigger] values[i] == ctx.spec_eval(
                coeffs@,
                ctx.coset_point(shift, table.root, (i * stride) as nat),
            ),
    decreases n_log,
{
    let n = coeffs.len();
    proof {
        vstd::arithmetic::power2::lemma2_to64();
        lemma_pow2_pos(n_log as nat);
    }
    if n_log == 0 {
        let mut values: Vec<u64> = Vec::new();
        values.push(coeffs[0]);
        proof {
            let x = ctx.coset_point(shift, table.root, 0);
            assert(coeffs@.drop_first().len() == 0);
            assert(eval_int(coeffs@.drop_first(), x as int) == 0);
            assert((x as int) * 0 == 0);
            assert(eval_int(coeffs@, x as int) == coeffs[0]);
            ctx.lemma_reduce_elem(coeffs[0]);
            assert(0 * stride == 0);
            assert(values[0] == ctx.spec_eval(coeffs@, x));
        }
        return values;
    }
    let half = n / 2;
    proof {
        lemma_pow2_unfold(n_log as nat);
        assert(half * (2 * stride) == (2 * half) * stride) by (nonlinear_arith);
        assert(2 * stride <= n * stride) by (nonlinear_arith)
            requires
                n >= 2,
                stride >= 0,
        ;
    }
    let mut even: Vec<u64> = Vec::new();
    let mut odd: Vec<u64> = Vec::new();
    let mut k: usize = 0;
    while k < half
        invariant
            k <= half,
            n == 2 * half,
            n == coeffs.len(),
            even.len() == k,
            odd.len() == k,
            forall|j: int| 0 <= j < k ==> even[j] == coeffs[2 * j],
            forall|j: int| 0 <= j < k ==> odd[j] == coeffs[2 * j + 1],
        decreases half - k,
    {
        even.push(coeffs[2 * k]);
        odd.push(coeffs[2 * k + 1]);
        k = k + 1;
    }
    proof {
        assert(even@ =~= even_part(coeffs@));
        assert(odd@ =~= odd_part(coeffs@));
    }
    let shift2 = ctx.mul(shift, shift);
    let stride2 = 2 * stride;
    let even_values = fft_recursive(ctx, &even, n_log - 1, shift2, table, stride2);
    let odd_values = fft_recursive(ctx, &odd, n_log - 1, shift2, table, stride2);
    let mut low: Vec<u64> = Vec::new();
    let mut high: Vec<u64> = Vec::new();
    let mut i: usize = 0;
    while i < half
        invariant
            i <= half,
            n == 2 * half,
            n == coeffs.len(),
            n * stride == table.roots.len(),
            stride2 == 2 * stride,
            ctx.modulus > 1,
            table.wf(*ctx),
            ctx.is_elem(shift),
            shift2 == ctx.spec_mul(shift, shift),
            even@ == even_part(coeffs@),
            odd@ == odd_part(coeffs@),
            even_values.len() == half,
            odd_values.len() == half,
            ctx.all_elems(even_values@),
            ctx.all_elems(odd_values@),
            forall|j: int|
                0 <= j < half ==> #[trigger] even_values[j] == ctx.spec_eval(
                    even@,
                    ctx.coset_point(shift2, table.root, (j * stride2) as nat),
                ),
            forall|j: int|
                0 <= j < half ==> #[trigger] odd_values[j] == ctx.spec_eval(
                    odd@,
                    ctx.coset_point(shift2, table.root, (j * stride2) as nat),
                ),
            low.len() == i,
            high.len() == i,
            ctx.all_elems(low@),
            ctx.all_elems(high@),
            forall|j: int|
                0 <= j < i ==> #[trigger] low[j] == ctx.spec_eval(
                    coeffs@,
                    ctx.coset_point(shift, table.root, (j * stride) as nat),
                ),
            forall|j: int|
                0 <= j < i ==> #[trigger] high[j] == ctx.spec_eval(
                    coeffs@,
                    ctx.coset_point(shift, table.root, ((j + half) * stride) as nat),
                ),
        decreases half - i,
    {
        proof {
            assert(0 <= i * stride && (i + half) * stride < n * stride && i * stride < n * stride
                && (i + half) * stride == i * stride + half * stride) by (nonlinear_arith)
                requires
                    0 <= i < half,
                    n == 2 * half,
                    stride >= 0,
                    n * stride >= 1,
            ;
        }
        let root_a = table.roots[i * stride];
        let root_b = table.roots[(i + half) * stride];
        let e = even_values[i];
        let o = odd_values[i];
        let x_a = ctx.mul(shift, root_a);
        let x_b = ctx.mul(shift, root_b);
        let t_a = ctx.mul(x_a, o);
        let t_b = ctx.mul(x_b, o);
        let v_a = ctx.add(e, t_a);
        let v_b = ctx.add(e, t_b);
        proof {
            let a = (i * stride) as nat;
            let b = ((i + half) * stride) as nat;
            let order = table.roots.len() as nat;
            assert(i * stride2 == 2 * a) by (nonlinear_arith)
                requires
                    stride2 == 2 * stride,
                    a == i * stride,
            ;
            assert(2 * b == 2 * a + order) by (nonlinear_arith)
                requires
                    b == (i + half) * stride,
                    a == i * stride,
                    order == (2 * half) * stride,
            ;
            let y = ctx.coset_point(shift2, table.root, (i * stride2) as nat);
            lemma_point_squared(*ctx, shift, table.root, a);
            lemma_point_squared(*ctx, shift, table.root, b);
            lemma_pow_wraps(*ctx, table.root, 2 * a, order);
            assert(even_values[i as int] == ctx.spec_eval(even@, y));
            assert(odd_values[i as int] == ctx.spec_eval(odd@, y));
            lemma_butterfly(*ctx, coeffs@, x_a, y, e, o);
            lemma_butterfly(*ctx, coeffs@, x_b, y, e, o);
        }
        low.push(v_a);
        high.push(v_b);
        i = i + 1;
    }
    let mut j: usize = 0;
    while j < half
        invariant
            j <= half,
            n == 2 * half,
            high.len() == half,
            low.len() == half + j,
            ctx.all_elems(low@),
            ctx.all_elems(high@),
            forall|t: int|
                0 <= t < half ==> #[trigger] low[t] == ctx.spec_eval(
                    coeffs@,
                    ctx.coset_point(shift, table.root, (t * stride) as nat),
                ),
            forall|t: int|
                0 <= t < half ==> #[trigger] high[t] == ctx.spec_eval(
                    coeffs@,
                    ctx.coset_point(shift, table.root, ((t + half) * stride) as nat),
                ),
            forall|t: int| half <= t < half + j ==> #[trigger] low[t] == high[t - half],
        decreases half - j,
    {
        low.push(high[j]);
        j = j + 1;
    }
    proof {
        assert forall|t: int| 0 <= t < low.len() implies #[trigger] low[t] == ctx.spec_eval(
            coeffs@,
            ctx.coset_point(shift, table.root, (t * stride) as nat),
        ) by {
            if t >= half {
                assert(low[t] == high[t - half]);
                assert((t - half) + half == t);
            }
        }
    }
    low
}

/// The square of a coset point is a point of the squared coset.
proof fn lemma_point_squared(ctx: FieldContext, shift: u64, root: u64, a: nat)
    requires
        ctx.modulus > 0,
    ensures
        ctx.spec_mul(ctx.coset_point(shift, root, a), ctx.coset_point(shift, root, a))
            == ctx.coset_point(ctx.spec_mul(shift, shift), root, 2 * a),
{
    let m = ctx.modulus as int;
    let s = shift as int;
    let p = pow(root as int, a);
    lemma_pow_adds(root as int, a, a);
    // left: ((s * (p % m)) % m)^2 % m == (s * p)^2 % m
    lemma_mul_mod_noop_general(s, p, m);
    lemma_mul_mod_noop_general(s * p, s * p, m);
    lemma_mul_mod_noop_general(s * (p % m), s * (p % m), m);
    // right: (((s * s) % m) * ((p * p) % m)) % m == (s * s * p * p) % m
    lemma_mul_mod_noop_general(s * s, p * p, m);
    assert((s * p) * (s * p) == (s * s) * (p * p)) by (nonlinear_arith);
}

/// Adding the root's order to an exponent does not change the power.
proof fn lemma_pow_wraps(ctx: FieldContext, root: u64, e: nat, order: nat)
    requires
        ctx.modulus > 1,
        ctx.spec_pow(root, order) == 1,
    ensures
        ctx.spec_pow(root, e + order) == ctx.spec_pow(root, e),
{
    let m = ctx.modulus as int;
    ctx.lemma_pow_sum(root, e, order);
    let p = ctx.spec_pow(root, e);
    assert(p * 1 == p);
    lemma_small_mod(p as nat, m as nat);
}

impl FieldContext {
    /// The `i`-th value of the low-degree extension of `coeffs` by `rate_bits`:
    /// the value of the zero-padded polynomial at the `i`-th point of the
    /// coset of the subgroup of the extended size.
    pub open spec fn spec_lde_value(self, coeffs: Seq<u64>, rate_bits: nat, i: nat) -> u64 {
        let extended = coeffs.len() * pow2(rate_bits);
        self.spec_eval(
            coeffs + zeros((extended - coeffs.len()) as nat),
            self.coset_point(
                self.coset_shift,
                self.spec_root_of_unity(spec_log2(extended as int)),
                i,
            ),
        )
    }

    /// The `i`-th coefficient of the polynomial that interpolates `values`
    /// over the subgroup of their number: the inverse transform
    /// `n^(-1) * sum_j values[j] * root^(-i * j)`.
    pub open spec fn spec_ifft_coeff(self, values: Seq<u64>, i: nat) -> u64 {
        let n = values.len();
        let n_log = spec_log2(n as int);
        self.spec_mul(
            self.spec_pow(self.spec_two_inverse(), n_log),
            self.spec_eval(
                values,
                self.spec_pow(self.spec_root_of_unity(n_log), ((n - i) % (n as int)) as nat),
            ),
        )
    }
}

impl PolynomialCoeffs {
    /// The polynomial with the given entries.
    pub fn new(coeffs: Vec<u64>) -> (r: Self)
        ensures
            r.coeffs == coeffs,
    {
        PolynomialCoeffs { coeffs }
    }

    /// The number of coefficients.
    pub fn len(&self) -> (r: usize)
        ensures
            r == self.coeffs.len(),
    {
        self.coeffs.len()
    }

    /// The value at `x`, by Horner's rule.
    pub fn eval(&self, ctx: &FieldContext, x: u64) -> (r: u64)
        requires
            ctx.modulus > 0,
            ctx.all_elems(self.coeffs@),
            ctx.is_elem(x),
        ensures
            r == ctx.spec_eval(self.coeffs@, x),
            ctx.is_elem(r),
    {
        let n = self.coeffs.len();
        let mut acc: u64 = 0;
        let mut i: usize = n;
        proof {
            assert(self.coeffs@.skip(n as int).len() == 0);
            lemma_small_mod(0, ctx.modulus as nat);
        }
        while i > 0
            invariant
                i <= n,
                n == self.coeffs.len(),
                ctx.modulus > 0,
                ctx.all_elems(self.coeffs@),
                ctx.is_elem(x),
                ctx.is_elem(acc),
                acc == ctx.spec_eval(self.coeffs@.skip(i as int), x),
            decreases i,
        {
            i = i - 1;
            let c = self.coeffs[i];
            let t = ctx.mul(acc, x);
            proof {
                let m = ctx.modulus as int;
                let tail = self.coeffs@.skip(i + 1);
                let here = self.coeffs@.skip(i as int);
                assert(here.drop_first() =~= tail);
                assert(here[0] == c);
                let v = eval_int(tail, x as int);
                lemma_mul_mod_noop_general(v, x as int, m);
                lemma_small_mod(x as nat, m as nat);
                lemma_add_mod_noop(c as int, (x as int) * v, m);
                lemma_small_mod(c as nat, m as nat);
                assert(v * (x as int) == (x as int) * v) by (nonlinear_arith);
            }
            acc = ctx.add(c, t);
        }
        proof {
            assert(self.coeffs@.skip(0) =~= self.coeffs@);
        }
        acc
    }

    /// The same polynomial with zero coefficients appended up to `new_len`.
    pub fn padded(&self, new_len: usize) -> (r: Self)
        requires
            new_len >= self.coeffs.len(),
        ensures
            r.coeffs@ == self.coeffs@ + zeros((new_len - self.coeffs.len()) as nat),
    {
        let mut coeffs: Vec<u64> = self.coeffs.clone();
        let n = self.coeffs.len();
        let mut k: usize = n;
        proof {
            assert(coeffs@ =~= self.coeffs@ + zeros(0));
        }
        while k < new_len
            invariant
                n <= k <= new_len,
                n == self.coeffs.len(),
                coeffs@ == self.coeffs@ + zeros((k - n) as nat),
            decreases new_len - k,
        {
            coeffs.push(0);
            k = k + 1;
            proof {
                assert(coeffs@ =~= self.coeffs@ + zeros((k - n) as nat));
            }
        }
        PolynomialCoeffs { coeffs }
    }

    /// The low-degree extension: zero coefficients appended up to `2^rate_bits` times the length.
    pub fn lde(&self, rate_bits: usize) -> (r: Self)
        requires
            self.coeffs.len() * pow2(rate_bits as nat) <= usize::MAX,
        ensures
            r.coeffs@ == self.coeffs@ + zeros(
                (self.coeffs.len() * pow2(rate_bits as nat) - self.coeffs.len()) as nat,
            ),
    {
        let n = self.coeffs.len();
        let mut new_len: usize = n;
        let mut k: usize = 0;
        proof {
            vstd::arithmetic::power2::lemma2_to64();
            assert(n * 1 == n);
        }
        while k < rate_bits
            invariant
                k <= rate_bits,
                new_len == n * pow2(k as nat),
                n * pow2(rate_bits as nat) <= usize::MAX,
            decreases rate_bits - k,
        {
            proof {
                lemma_pow2_unfold((k + 1) as nat);
                crate::bits::lemma_pow2_monotone((k + 1) as nat, rate_bits as nat);
                let a = pow2(k as nat) as int;
                let b = pow2((k + 1) as nat) as int;
                let c = pow2(rate_bits as nat) as int;
                assert(n * b == 2 * (n * a) && n * b <= n * c) by (nonlinear_arith)
                    requires
                        b == 2 * a,
                        b <= c,
                        n >= 0,
                ;
            }
            new_len = new_len * 2;
            k = k + 1;
        }
        proof {
            lemma_pow2_pos(rate_bits as nat);
            let c = pow2(rate_bits as nat) as int;
            assert(n * c >= n) by (nonlinear_arith)
                requires
                    c >= 1,
                    n >= 0,
            ;
        }
        self.padded(new_len)
    }

    /// The values over the coset `shift * H`, where `H` is the subgroup of
    /// the polynomial's length, in natural order.
    ///
    /// A table handed in must be that of `H`; without one it is computed
    /// here, and the values are the same.
    pub fn coset_fft_with_options(
        &self,
        ctx: &FieldContext,
        shift: u64,
        root_table: Option<&FftRootTable>,
    ) -> (r: PolynomialValues)
        requires
            ctx.wf(),
            is_pow2(self.coeffs.len() as int),
            spec_log2(self.coeffs.len() as int) <= ctx.two_adicity,
            ctx.all_elems(self.coeffs@),
            ctx.is_elem(shift),
            root_table matches Some(table) ==> {
                &&& table.wf(*ctx)
                &&& table.roots.len() == self.coeffs.len()
                &&& table.root == ctx.spec_root_of_unity(spec_log2(self.coeffs.len() as int))
            },
        ensures
            r.values.len() == self.coeffs.len(),
            ctx.all_elems(r.values@),
            forall|i: int|
                0 <= i < r.values.len() ==> #[trigger] r.values[i] == ctx.spec_eval(
                    self.coeffs@,
                    ctx.coset_point(
                        shift,
                        ctx.spec_root_of_unity(spec_log2(self.coeffs.len() as int)),
                        i as nat,
                    ),
                ),
    {
        let n_log = log2_strict(self.coeffs.len());
        proof {
            assert(self.coeffs.len() * 1 == self.coeffs.len());
        }
        let values = match root_table {
            Some(table) => fft_recursive(ctx, &self.coeffs, n_log, shift, table, 1),
            None => {
                let table = fft_root_table(ctx, n_log);
                fft_recursive(ctx, &self.coeffs, n_log, shift, &table, 1)
            },
        };
        proof {
            assert forall|i: int| 0 <= i < values.len() implies #[trigger] values[i]
                == ctx.spec_eval(
                self.coeffs@,
                ctx.coset_point(shift, ctx.spec_root_of_unity(n_log as nat), i as nat),
            ) by {
                assert(i * 1 == i);
            }
        }
        PolynomialValues { values }
    }

    /// The values over the coset `shift * H`, in natural order.
    pub fn coset_fft(&self, ctx: &FieldContext, shift: u64) -> (r: PolynomialValues)
        requires
            ctx.wf(),
            is_pow2(self.coeffs.len() as int),
            spec_log2(self.coeffs.len() as int) <= ctx.two_adicity,
            ctx.all_elems(self.coeffs@),
            ctx.is_elem(shift),
        ensures
            r.values.len() == self.coeffs.len(),
            ctx.all_elems(r.values@),
            forall|i: int|
                0 <= i < r.values.len() ==> #[trigger] r.values[i] == ctx.spec_eval(
                    self.coeffs@,
                    ctx.coset_point(
                        shift,
                        ctx.spec_root_of_unity(spec_log2(self.coeffs.len() as int)),
                        i as nat,
                    ),
                ),
    {
        self.coset_fft_with_options(ctx, shift, None)
    }

    /// The values over the subgroup of the polynomial's length, in natural order.
    pub fn fft(&self, ctx: &FieldContext) -> (r: PolynomialValues)
        requires
            ctx.wf(),
            is_pow2(self.coeffs.len() as int),
            spec_log2(self.coeffs.len() as int) <= ctx.two_adicity,
            ctx.all_elems(self.coeffs@),
        ensures
            r.values.len() == self.coeffs.len(),
            ctx.all_elems(r.values@),
            forall|i: int|
                0 <= i < r.values.len() ==> #[trigger] r.values[i] == ctx.spec_eval(
                    self.coeffs@,
                    ctx.spec_pow(
                        ctx.spec_root_of_unity(spec_log2(self.coeffs.len() as int)),
                        i as nat,
                    ),
                ),
    {
        let r = self.coset_fft_with_options(ctx, 1, None);
        proof {
            let root = ctx.spec_root_of_unity(spec_log2(self.coeffs.len() as int));
            assert forall|i: int| 0 <= i < r.values.len() implies #[trigger] r.values[i]
                == ctx.spec_eval(self.coeffs@, ctx.spec_pow(root, i as nat)) by {
                let p = ctx.spec_pow(root, i as nat);
                assert(1 * p == p);
                lemma_small_mod(p as nat, ctx.modulus as nat);
                assert(ctx.coset_point(1, root, i as nat) == p);
            }
        }
        r
    }
}

impl PolynomialValues {
    /// The polynomial with the given entries.
    pub fn new(values: Vec<u64>) -> (r: Self)
        ensures
            r.values == values,
    {
        PolynomialValues { values }
    }

    /// The number of values.
    pub fn len(&self) -> (r: usize)
        ensures
            r == self.values.len(),
    {
        self.values.len()
    }

    /// The coefficients of the polynomial that takes these values over the
    /// subgroup of their number.
    pub fn ifft(&self, ctx: &FieldContext) -> (r: PolynomialCoeffs)
        requires
            ctx.wf(),
            is_pow2(self.values.len() as int),
            spec_log2(self.values.len() as int) <= ctx.two_adicity,
            ctx.all_elems(self.values@),
        ensures
            r.coeffs.len() == self.values.len(),
            ctx.all_elems(r.coeffs@),
            forall|i: int|
                0 <= i < r.coeffs.len() ==> #[trigger] r.coeffs[i] == ctx.spec_ifft_coeff(
                    self.values@,
                    i as nat,
                ),
    {
        let n = self.values.len();
        let n_log = log2_strict(n);
        let as_coeffs = PolynomialCoeffs { coeffs: self.values.clone() };
        let transformed = as_coeffs.fft(ctx);
        let two_inv = ctx.two_inverse();
        let n_inv = ctx.exp_u64(two_inv, n_log as u64);
        let mut coeffs: Vec<u64> = Vec::new();
        let mut i: usize = 0;
        proof {
            lemma_pow2_pos(n_log as nat);
        }
        while i < n
            invariant
                i <= n,
                n == self.values.len(),
                n > 0,
                n_log == spec_log2(n as int),
                ctx.modulus > 1,
                as_coeffs.coeffs@ == self.values@,
                transformed.values.len() == n,
                ctx.all_elems(transformed.values@),
                forall|j: int|
                    0 <= j < n ==> #[trigger] transformed.values[j] == ctx.spec_eval(
                        self.values@,
                        ctx.spec_pow(ctx.spec_root_of_unity(n_log as nat), j as nat),
                    ),
                ctx.is_elem(n_inv),
                n_inv == ctx.spec_pow(ctx.spec_two_inverse(), n_log as nat),
                coeffs.len() == i,
                ctx.all_elems(coeffs@),
                forall|j: int|
                    0 <= j < i ==> #[trigger] coeffs[j] == ctx.spec_ifft_coeff(
                        self.values@,
                        j as nat,
                    ),
            decreases n - i,
        {
            let source = if i == 0 {
                0
            } else {
                n - i
            };
            proof {
                if i == 0 {
                    vstd::arithmetic::div_mod::lemma_mod_self_0(n as int);
                } else {
                    lemma_small_mod((n - i) as nat, n as nat);
                }
                assert(source == (n - i) % (n as int));
            }
            let c = ctx.mul(n_inv, transformed.values[source]);
            coeffs.push(c);
            i = i + 1;
        }
        PolynomialCoeffs { coeffs }
    }
}

} // verus!
