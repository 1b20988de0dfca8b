use fri_oracle::extension_polynomial::{DivisionError, PolynomialCoeffsExt};
use fri_oracle::field::FieldContext;
use fri_oracle::polynomial::{fft_root_table, PolynomialCoeffs, PolynomialValues};

fn small_field() -> FieldContext {
    FieldContext::new(97, 5, 28, 5, 2, 5).unwrap()
}

fn naive_eval(coeffs: &[u64], x: u64, p: u64) -> u64 {
    let mut acc: u128 = 0;
    let mut power: u128 = 1;
    for c in coeffs {
        acc = (acc + (*c as u128) * power) % (p as u128);
        power = power * (x as u128) % (p as u128);
    }
    acc as u64
}

fn power(base: u64, e: u64, p: u64) -> u64 {
    let mut acc: u128 = 1;
    for _ in 0..e {
        acc = acc * (base as u128) % (p as u128);
    }
    acc as u64
}

#[test]
fn horner_evaluation() {
    let ctx = small_field();
    let poly = PolynomialCoeffs::new(vec![1, 2, 3]);
    assert_eq!(poly.len(), 3);
    assert_eq!(poly.eval(&ctx, 0), 1);
    assert_eq!(poly.eval(&ctx, 1), 6);
    // 1 + 20 + 300 = 321 = 3 * 97 + 30
    assert_eq!(poly.eval(&ctx, 10), 30);
    assert_eq!(PolynomialCoeffs::new(vec![]).eval(&ctx, 5), 0);
}

#[test]
fn fft_gives_the_values_over_the_subgroup() {
    let ctx = small_field();
    let coeffs = vec![3u64, 1, 4, 1, 5, 9, 2, 6];
    let poly = PolynomialCoeffs::new(coeffs.clone());
    let values = poly.fft(&ctx);
    let root = ctx.primitive_root_of_unity(3);
    assert_eq!(root, power(28, 4, 97));
    assert_eq!(values.len(), 8);
    for i in 0..8u64 {
        assert_eq!(values.values[i as usize], naive_eval(&coeffs, power(root, i, 97), 97));
    }
    // the value at the first point is the sum of the coefficients
    assert_eq!(values.values[0], 31);
}

#[test]
fn coset_fft_gives_the_values_over_the_coset() {
    let ctx = small_field();
    let coeffs = vec![10u64, 20, 30, 40];
    let poly = PolynomialCoeffs::new(coeffs.clone());
    let values = poly.coset_fft(&ctx, 5);
    let root = ctx.primitive_root_of_unity(2);
    for i in 0..4u64 {
        let point = 5 * power(root, i, 97) % 97;
        assert_eq!(values.values[i as usize], naive_eval(&coeffs, point, 97));
    }
    // at the point 5: 10 + 100 + 750 + 5000 = 5860 = 60 * 97 + 40
    assert_eq!(values.values[0], 40);
}

#[test]
fn a_root_table_does_not_change_the_values() {
    let ctx = small_field();
    let poly = PolynomialCoeffs::new(vec![7, 0, 96, 13, 1, 1, 2, 50]);
    let table = fft_root_table(&ctx, 3);
    assert_eq!(table.roots.len(), 8);
    assert_eq!(table.roots[0], 1);
    assert_eq!(table.root, ctx.primitive_root_of_unity(3));
    let with_table = poly.coset_fft_with_options(&ctx, 5, Some(&table));
    let without = poly.coset_fft_with_options(&ctx, 5, None);
    assert_eq!(with_table.values, without.values);
}

#[test]
fn a_constant_polynomial_has_one_value() {
    let ctx = small_field();
    let poly = PolynomialCoeffs::new(vec![42]);
    assert_eq!(poly.fft(&ctx).values, vec![42]);
    assert_eq!(poly.coset_fft(&ctx, 5).values, vec![42]);
    assert_eq!(PolynomialValues::new(vec![42]).ifft(&ctx).coeffs, vec![42]);
}

#[test]
fn ifft_inverts_fft() {
    let ctx = small_field();
    let coeffs = vec![3u64, 1, 4, 1, 5, 9, 2, 6];
    let values = PolynomialCoeffs::new(coeffs.clone()).fft(&ctx);
    assert_eq!(values.ifft(&ctx).coeffs, coeffs);
    let goldilocks = FieldContext::goldilocks(2);
    let coeffs: Vec<u64> = (0..64u64).map(|i| i * i + 1).collect();
    let values = PolynomialCoeffs::new(coeffs.clone()).fft(&goldilocks);
    assert_eq!(values.ifft(&goldilocks).coeffs, coeffs);
}

#[test]
fn ifft_of_two_values() {
    let ctx = small_field();
    // the line through (1, 10) and (-1, 4) is 7 + 3 X
    assert_eq!(PolynomialValues::new(vec![10, 4]).ifft(&ctx).coeffs, vec![7, 3]);
}

#[test]
fn lde_appends_zeros() {
    let poly = PolynomialCoeffs::new(vec![1, 2]);
    assert_eq!(poly.lde(0).coeffs, vec![1, 2]);
    assert_eq!(poly.lde(2).coeffs, vec![1, 2, 0, 0, 0, 0, 0, 0]);
    assert_eq!(poly.padded(3).coeffs, vec![1, 2, 0]);
    assert_eq!(PolynomialCoeffs::new(vec![]).lde(3).coeffs, Vec::<u64>::new());
}

#[test]
fn division_by_a_linear_factor() {
    let ctx = small_field();
    // f = X^2 - 1 = (X - 1)(X + 1), as a polynomial over the extension
    let f = PolynomialCoeffsExt { coeffs: vec![vec![96, 0], vec![0, 0], vec![1, 0]] };
    let quotient = f.divide_by_linear(&ctx, &vec![1, 0]);
    assert_eq!(quotient.coeffs, vec![vec![1, 0], vec![1, 0]]);
    assert_eq!(f.eval(&ctx, &vec![1, 0]), vec![0, 0]);
    // at z = 2 the value 3 is left over: X^2 - 1 = (X - 2)(X + 2) + 3
    let quotient = f.divide_by_linear(&ctx, &vec![2, 0]);
    assert_eq!(quotient.coeffs, vec![vec![2, 0], vec![1, 0]]);
    assert_eq!(f.eval(&ctx, &vec![2, 0]), vec![3, 0]);
    // a point outside the base field: f(X) at the root X of X^2 = 5 is 4
    assert_eq!(f.eval(&ctx, &vec![0, 1]), vec![4, 0]);
    let quotient = f.divide_by_linear(&ctx, &vec![0, 1]);
    assert_eq!(quotient.coeffs, vec![vec![0, 1], vec![1, 0]]);
    assert_eq!(PolynomialCoeffsExt::empty().divide_by_linear(&ctx, &vec![1, 0]).coeffs.len(), 0);
    let constant = PolynomialCoeffsExt { coeffs: vec![vec![9, 9]] };
    assert_eq!(constant.divide_by_linear(&ctx, &vec![1, 0]).coeffs.len(), 0);
}

#[test]
fn quotient_times_factor_plus_value_gives_the_polynomial_back() {
    let ctx = small_field();
    let f = PolynomialCoeffsExt {
        coeffs: vec![vec![3, 1], vec![4, 1], vec![5, 9], vec![2, 6]],
    };
    let z = vec![11, 29];
    let q = f.divide_by_linear(&ctx, &z);
    let value = f.eval(&ctx, &z);
    // coefficient k of q * (X - z) + f(z)
    for k in 0..4 {
        let below = if k == 0 { value.clone() } else { q.coeffs[k - 1].clone() };
        let here = if k < 3 { q.coeffs[k].clone() } else { vec![0, 0] };
        let rebuilt = ctx.ext_sub(&below, &ctx.ext_mul(&here, &z));
        assert_eq!(rebuilt, f.coeffs[k]);
    }
}

#[test]
fn extension_polynomial_operations() {
    let ctx = small_field();
    let f = PolynomialCoeffsExt { coeffs: vec![vec![1, 2], vec![3, 4]] };
    let g = PolynomialCoeffsExt { coeffs: vec![vec![96, 95]] };
    assert_eq!(f.add(&ctx, &g).coeffs, vec![vec![0, 0], vec![3, 4]]);
    assert_eq!(g.add(&ctx, &f).coeffs, vec![vec![0, 0], vec![3, 4]]);
    assert_eq!(f.scale(&ctx, &vec![0, 1]).coeffs, vec![vec![10, 1], vec![20, 3]]);
    assert_eq!(f.times_x(&ctx).coeffs, vec![vec![0, 0], vec![1, 2], vec![3, 4]]);
    assert_eq!(f.lde(&ctx, 1).coeffs, vec![vec![1, 2], vec![3, 4], vec![0, 0], vec![0, 0]]);
    assert_eq!(f.len(), 2);
    let values = f.coset_fft(&ctx, 5);
    // at the points 5 and -5: (1 + 15, 2 + 20) and (1 - 15, 2 - 20)
    assert_eq!(values.values, vec![vec![16, 22], vec![83, 79]]);
}

#[test]
fn checked_division_refuses_a_wrong_value() {
    let ctx = small_field();
    let f = PolynomialCoeffsExt { coeffs: vec![vec![96, 0], vec![0, 0], vec![1, 0]] };
    // f(2) = 3
    let quotient = f.divide_by_linear_checked(&ctx, &vec![2, 0], &vec![3, 0]).unwrap();
    assert_eq!(quotient.coeffs, vec![vec![2, 0], vec![1, 0]]);
    assert_eq!(
        f.divide_by_linear_checked(&ctx, &vec![2, 0], &vec![4, 0]).unwrap_err(),
        DivisionError::NonzeroRemainder
    );
    assert_eq!(
        f.divide_by_linear_checked(&ctx, &vec![2, 0], &vec![3, 1]).unwrap_err(),
        DivisionError::NonzeroRemainder
    );
    // the empty polynomial has the value zero everywhere
    let empty = PolynomialCoeffsExt::empty();
    assert!(empty.divide_by_linear_checked(&ctx, &vec![2, 0], &vec![0, 0]).is_ok());
    assert!(empty.divide_by_linear_checked(&ctx, &vec![2, 0], &vec![1, 0]).is_err());
}
