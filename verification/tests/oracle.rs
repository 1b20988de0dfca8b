use fri_oracle::bits::reverse_bits;
use fri_oracle::field::FieldContext;
use fri_oracle::fri::{FriBatchInfo, FriInstanceInfo, FriOracleInfo, FriPolynomialInfo};
use fri_oracle::hash::{AlgebraicSponge, Hasher};
use fri_oracle::merkle_tree::verify_merkle_proof;
use fri_oracle::oracle::{
    opening_polynomial, CosetFftStrategy, LdeStrategy, PolynomialBatch, SALT_SIZE,
};
use fri_oracle::polynomial::{fft_root_table, PolynomialCoeffs, PolynomialValues};
use fri_oracle::reducing::ReducingFactor;

fn small_field() -> FieldContext {
    FieldContext::new(97, 5, 28, 5, 2, 5).unwrap()
}

fn naive_eval(coeffs: &[u64], x: u64, p: u64) -> u64 {
    let mut acc: u128 = 0;
    let mut power: u128 = 1;
    for c in coeffs {
        acc = (acc + (*c as u128) * power) % (p as u128);
        power = power * (x as u128) % (p as u128);
    }
    acc as u64
}

fn power(base: u64, e: u64, p: u64) -> u64 {
    let mut acc: u128 = 1;
    for _ in 0..e {
        acc = acc * (base as u128) % (p as u128);
    }
    acc as u64
}

fn sample_polys() -> Vec<PolynomialCoeffs> {
    vec![
        PolynomialCoeffs::new(vec![1, 2, 3, 4]),
        PolynomialCoeffs::new(vec![96, 0, 5, 50]),
        PolynomialCoeffs::new(vec![0, 0, 0, 0]),
    ]
}

#[test]
fn read_back_gives_the_coset_values_of_the_padded_polynomials() {
    let ctx = small_field();
    let hasher = AlgebraicSponge::new(&ctx);
    for rate_bits in 0..=2usize {
        let polys = sample_polys();
        let batch =
            PolynomialBatch::from_coeffs(&ctx, &hasher, sample_polys(), rate_bits, false, 0, None);
        assert_eq!(batch.degree_log, 2);
        assert_eq!(batch.rate_bits, rate_bits);
        let size = 4u64 << rate_bits;
        let root = power(28, 32 / size, 97);
        for i in 0..size {
            let point = 5 * power(root, i, 97) % 97;
            let row = batch.get_lde_values(i as usize, 1);
            assert_eq!(row.len(), 3);
            for j in 0..3 {
                assert_eq!(row[j], naive_eval(&polys[j].coeffs, point, 97));
            }
        }
    }
}

#[test]
fn one_exact_row() {
    let ctx = small_field();
    let hasher = AlgebraicSponge::new(&ctx);
    let batch = PolynomialBatch::from_coeffs(&ctx, &hasher, sample_polys(), 1, false, 0, None);
    // the first point of the coset is the shift 5:
    // 1 + 10 + 75 + 500 = 586 = 6 * 97 + 4, and 96 + 125 + 6250 = 6471 = 66 * 97 + 69
    assert_eq!(batch.get_lde_values(0, 1), &[4, 69, 0]);
    assert_eq!(batch.get_lde_values(0, 7), &[4, 69, 0]);
}

#[test]
fn leaves_stand_at_bit_reversed_positions() {
    let ctx = small_field();
    let hasher = AlgebraicSponge::new(&ctx);
    let batch = PolynomialBatch::from_coeffs(&ctx, &hasher, sample_polys(), 1, false, 1, None);
    assert_eq!(batch.merkle_tree.leaves.len(), 8);
    for i in 0..8 {
        let row = batch.get_lde_values(i, 1).to_vec();
        assert_eq!(batch.merkle_tree.leaves[reverse_bits(i, 3)], row);
    }
    assert_eq!(batch.merkle_tree.cap.0.len(), 2);
    let proof = batch.merkle_tree.prove(3);
    assert!(verify_merkle_proof(
        &hasher,
        &batch.merkle_tree.leaves[3],
        3,
        &batch.merkle_tree.cap,
        &proof
    ));
}

#[test]
fn step_strides_through_the_domain() {
    let ctx = small_field();
    let hasher = AlgebraicSponge::new(&ctx);
    let batch = PolynomialBatch::from_coeffs(&ctx, &hasher, sample_polys(), 2, false, 0, None);
    for i in 0..4 {
        assert_eq!(batch.get_lde_values(i, 4), batch.get_lde_values(4 * i, 1));
        assert_eq!(batch.get_lde_values(i, 4), &batch.merkle_tree.leaves[reverse_bits(4 * i, 4)][..]);
    }
}

#[test]
fn blinding_adds_salt_that_is_never_read_back() {
    let ctx = small_field();
    let hasher = AlgebraicSponge::new(&ctx);
    let plain = PolynomialBatch::from_coeffs(&ctx, &hasher, sample_polys(), 1, false, 0, None);
    let blinded = PolynomialBatch::from_coeffs(&ctx, &hasher, sample_polys(), 1, true, 0, None);
    assert!(blinded.blinding);
    assert!(!plain.blinding);
    for leaf in &plain.merkle_tree.leaves {
        assert_eq!(leaf.len(), 3);
    }
    for leaf in &blinded.merkle_tree.leaves {
        assert_eq!(leaf.len(), 3 + SALT_SIZE);
        assert!(leaf.iter().all(|x| *x < 97));
    }
    for i in 0..8 {
        assert_eq!(blinded.get_lde_values(i, 1).len(), 3);
        assert_eq!(blinded.get_lde_values(i, 1), plain.get_lde_values(i, 1));
    }
    let salt: Vec<u64> =
        blinded.merkle_tree.leaves.iter().flat_map(|leaf| leaf[3..].to_vec()).collect();
    assert_eq!(salt.len(), 32);
    assert!(salt.iter().any(|x| *x != salt[0]));
}

#[test]
fn lde_columns_come_with_salt_columns() {
    let ctx = small_field();
    let polys = sample_polys();
    let plain = PolynomialBatch::lde_values(&ctx, &polys, 1, false, None);
    let blinded = PolynomialBatch::lde_values(&ctx, &polys, 1, true, None);
    assert_eq!(plain.len(), 3);
    assert_eq!(blinded.len(), 7);
    assert!(blinded.iter().all(|column| column.len() == 8));
    assert_eq!(&blinded[..3], &plain[..]);
    assert_eq!(plain[2], vec![0; 8]);
}

#[test]
fn a_root_table_gives_the_same_commitment() {
    let ctx = small_field();
    let hasher = AlgebraicSponge::new(&ctx);
    let table = fft_root_table(&ctx, 3);
    let with_table =
        PolynomialBatch::from_coeffs(&ctx, &hasher, sample_polys(), 1, false, 0, Some(&table));
    let without = PolynomialBatch::from_coeffs(&ctx, &hasher, sample_polys(), 1, false, 0, None);
    assert_eq!(with_table.merkle_tree.leaves, without.merkle_tree.leaves);
    assert!(with_table.merkle_tree.cap.0[0].same(&without.merkle_tree.cap.0[0]));
}

#[test]
fn committing_to_values_interpolates_first() {
    let ctx = small_field();
    let hasher = AlgebraicSponge::new(&ctx);
    let polys = sample_polys();
    let values: Vec<PolynomialValues> = polys.iter().map(|p| p.fft(&ctx)).collect();
    let from_values = PolynomialBatch::from_values(&ctx, &hasher, values, 1, false, 0, None);
    let from_coeffs = PolynomialBatch::from_coeffs(&ctx, &hasher, sample_polys(), 1, false, 0, None);
    assert_eq!(from_values.degree_log, 2);
    for j in 0..3 {
        assert_eq!(from_values.polynomials[j].coeffs, polys[j].coeffs);
    }
    assert_eq!(from_values.merkle_tree.leaves, from_coeffs.merkle_tree.leaves);
}

#[test]
fn a_single_polynomial_of_one_coefficient() {
    let ctx = small_field();
    let hasher = AlgebraicSponge::new(&ctx);
    let batch = PolynomialBatch::from_coeffs(
        &ctx,
        &hasher,
        vec![PolynomialCoeffs::new(vec![42])],
        0,
        false,
        0,
        None,
    );
    assert_eq!(batch.degree_log, 0);
    assert_eq!(batch.merkle_tree.leaves, vec![vec![42]]);
    assert_eq!(batch.get_lde_values(0, 1), &[42]);
    assert!(batch.merkle_tree.cap.0[0].same(&hasher.hash_no_pad(&vec![42])));
}

#[test]
fn packed_values_are_the_rows_transposed() {
    let ctx = small_field();
    let hasher = AlgebraicSponge::new(&ctx);
    let batch = PolynomialBatch::from_coeffs(&ctx, &hasher, sample_polys(), 1, false, 0, None);
    let packed = batch.get_lde_values_packed(2, 1, 4);
    assert_eq!(packed.len(), 3);
    for j in 0..3 {
        assert_eq!(packed[j].len(), 4);
        for w in 0..4 {
            assert_eq!(packed[j][w], batch.get_lde_values(2 + w, 1)[j]);
        }
    }
    let strided = batch.get_lde_values_packed(1, 2, 3);
    for j in 0..3 {
        for w in 0..3 {
            assert_eq!(strided[j][w], batch.get_lde_values(1 + w, 2)[j]);
        }
    }
}

fn ext_eval_base_poly(ctx: &FieldContext, coeffs: &[u64], x: &Vec<u64>) -> Vec<u64> {
    let mut acc = ctx.ext_zero();
    for c in coeffs.iter().rev() {
        acc = ctx.ext_add(&ctx.ext_mul(&acc, x), &ctx.ext_from_base(*c));
    }
    acc
}

#[test]
fn the_opening_polynomial_is_the_sum_of_the_quotients() {
    let ctx = small_field();
    let hasher = AlgebraicSponge::new(&ctx);
    let first = PolynomialBatch::from_coeffs(&ctx, &hasher, sample_polys(), 1, false, 0, None);
    let second = PolynomialBatch::from_coeffs(
        &ctx,
        &hasher,
        vec![PolynomialCoeffs::new(vec![9, 8, 7, 6])],
        1,
        false,
        0,
        None,
    );
    let z1 = vec![13u64, 2];
    let z2 = vec![40u64, 77];
    let batch1 = vec![(0usize, 0usize), (0, 1), (1, 0)];
    let batch2 = vec![(0usize, 1usize), (1, 0)];
    let info = |pairs: &Vec<(usize, usize)>| -> Vec<FriPolynomialInfo> {
        pairs
            .iter()
            .map(|(o, p)| FriPolynomialInfo { oracle_index: *o, polynomial_index: *p })
            .collect()
    };
    let instance = FriInstanceInfo {
        oracles: vec![
            FriOracleInfo { num_polys: 3, blinding: false },
            FriOracleInfo { num_polys: 1, blinding: false },
        ],
        batches: vec![
            FriBatchInfo { point: z1.clone(), polynomials: info(&batch1) },
            FriBatchInfo { point: z2.clone(), polynomials: info(&batch2) },
        ],
    };
    let oracles = vec![&first, &second];
    let alpha = vec![3u64, 58];
    let final_poly = opening_polynomial(&ctx, &instance, &oracles, alpha.clone());
    assert_eq!(final_poly.coeffs.len(), 4);
    assert_eq!(final_poly.coeffs[0], vec![0, 0]);

    // F_i(x) = sum_j alpha^j f_ij(x), computed from the polynomials themselves
    let composition = |pairs: &Vec<(usize, usize)>, x: &Vec<u64>| -> Vec<u64> {
        let mut acc = ctx.ext_zero();
        for (j, (o, p)) in pairs.iter().enumerate() {
            let value = ext_eval_base_poly(&ctx, &oracles[*o].polynomials[*p].coeffs, x);
            acc = ctx.ext_add(&acc, &ctx.ext_mul(&ctx.ext_pow(&alpha, j), &value));
        }
        acc
    };
    for x in [vec![1u64, 0], vec![0, 1], vec![50, 60], vec![96, 96], vec![7, 0]] {
        // final(x) * (x - z1) * (x - z2)
        //   == x * (alpha^2 * (F1(x) - F1(z1)) * (x - z2) + (F2(x) - F2(z2)) * (x - z1))
        let d1 = ctx.ext_sub(&x, &z1);
        let d2 = ctx.ext_sub(&x, &z2);
        let left = ctx.ext_mul(&ctx.ext_mul(&final_poly.eval(&ctx, &x), &d1), &d2);
        let n1 = ctx.ext_sub(&composition(&batch1, &x), &composition(&batch1, &z1));
        let n2 = ctx.ext_sub(&composition(&batch2, &x), &composition(&batch2, &z2));
        let first_term = ctx.ext_mul(&ctx.ext_mul(&ctx.ext_pow(&alpha, 2), &n1), &d2);
        let second_term = ctx.ext_mul(&n2, &d1);
        let right = ctx.ext_mul(&x, &ctx.ext_add(&first_term, &second_term));
        assert_eq!(left, right);
    }
}

#[test]
fn an_instance_without_batches_opens_to_zero() {
    let ctx = small_field();
    let instance = FriInstanceInfo { oracles: vec![], batches: vec![] };
    let final_poly = opening_polynomial(&ctx, &instance, &vec![], vec![1, 2]);
    assert_eq!(final_poly.coeffs, vec![vec![0, 0]]);
}

#[test]
fn reducing_factor_counts_the_powers_it_used() {
    let ctx = small_field();
    let polys = sample_polys();
    let refs: Vec<&PolynomialCoeffs> = polys.iter().collect();
    let mut alpha = ReducingFactor::new(vec![2, 0]);
    let combined = alpha.reduce_polys_base(&ctx, &refs);
    assert_eq!(alpha.count, 3);
    // f0 + 2 f1 + 4 f2, coefficient by coefficient
    assert_eq!(
        combined.coeffs,
        vec![vec![(1 + 2 * 96) % 97, 0], vec![2, 0], vec![13, 0], vec![(4 + 100) % 97, 0]]
    );
    let mut p = combined;
    alpha.shift_poly(&ctx, &mut p);
    assert_eq!(alpha.count, 0);
    // times 2^3
    assert_eq!(p.coeffs[1], vec![16, 0]);
    assert_eq!(p.coeffs[2], vec![(13 * 8) % 97, 0]);
}

#[test]
fn the_transform_strategy_decides_how_not_what() {
    let ctx = small_field();
    let polys = sample_polys();
    let by_strategy = PolynomialBatch::lde_values_with(
        &CosetFftStrategy,
        &ctx,
        &polys,
        1,
        false,
        None,
    );
    assert_eq!(by_strategy, PolynomialBatch::lde_values(&ctx, &polys, 1, false, None));
    let columns = CosetFftStrategy.extend(&ctx, &polys, 1, None);
    assert_eq!(columns, by_strategy);
}
