use fri_oracle::field::{FieldContext, GOLDILOCKS_ORDER, GOLDILOCKS_POWER_OF_TWO_GENERATOR};

fn small_field() -> FieldContext {
    // 97 - 1 = 2^5 * 3, and 28 = 5^3 generates the subgroup of order 32
    FieldContext::new(97, 5, 28, 5, 2, 5).expect("the constants of the field of 97 elements")
}

#[test]
fn goldilocks_constants() {
    let ctx = FieldContext::goldilocks(2);
    assert_eq!(ctx.modulus, 0xFFFFFFFF00000001);
    assert_eq!(ctx.modulus, GOLDILOCKS_ORDER);
    assert_eq!(ctx.two_adicity, 32);
    assert_eq!(ctx.power_of_two_generator, GOLDILOCKS_POWER_OF_TWO_GENERATOR);
    assert_eq!(ctx.coset_shift, 7);
    assert_eq!(ctx.degree, 2);
    assert_eq!(ctx.w, 7);
    assert_eq!(ctx.exp_power_of_2(ctx.power_of_two_generator, 32), 1);
    assert_eq!(ctx.exp_power_of_2(ctx.power_of_two_generator, 31), ctx.modulus - 1);
    assert_eq!(
        FieldContext::new(GOLDILOCKS_ORDER, 32, GOLDILOCKS_POWER_OF_TWO_GENERATOR, 7, 2, 7),
        Some(ctx)
    );
}

#[test]
fn new_rejects_constants_that_break_the_invariant() {
    assert!(FieldContext::new(97, 5, 28, 5, 2, 5).is_some());
    // an even modulus, and a modulus of two
    assert_eq!(FieldContext::new(96, 5, 28, 5, 2, 5), None);
    assert_eq!(FieldContext::new(2, 0, 1, 1, 1, 1), None);
    // a generator whose order does not divide 2^two_adicity
    assert_eq!(FieldContext::new(97, 5, 5, 5, 2, 5), None);
    assert_eq!(FieldContext::new(97, 4, 28, 5, 2, 5), None);
    // constants outside the field
    assert_eq!(FieldContext::new(97, 5, 97, 5, 2, 5), None);
    assert_eq!(FieldContext::new(97, 5, 28, 0, 2, 5), None);
    assert_eq!(FieldContext::new(97, 5, 28, 97, 2, 5), None);
    assert_eq!(FieldContext::new(97, 5, 28, 5, 2, 97), None);
    // a coset shift inside the subgroup
    assert_eq!(FieldContext::new(97, 5, 28, 28, 2, 5), None);
    assert_eq!(FieldContext::new(97, 5, 28, 1, 2, 5), None);
    assert_eq!(FieldContext::new(97, 5, 28, 96, 2, 5), None);
    // no degree, and a two-adicity beyond the machine word
    assert_eq!(FieldContext::new(97, 5, 28, 5, 0, 5), None);
    assert_eq!(FieldContext::new(97, 64, 1, 5, 2, 5), None);
}

#[test]
fn arithmetic_in_a_small_field() {
    let ctx = small_field();
    assert_eq!(ctx.add(90, 10), 3);
    assert_eq!(ctx.add(0, 0), 0);
    assert_eq!(ctx.sub(3, 10), 90);
    assert_eq!(ctx.sub(10, 3), 7);
    assert_eq!(ctx.neg(0), 0);
    assert_eq!(ctx.neg(1), 96);
    assert_eq!(ctx.mul(96, 96), 1);
    assert_eq!(ctx.mul(50, 2), 3);
    assert_eq!(ctx.exp_u64(5, 0), 1);
    assert_eq!(ctx.exp_u64(5, 3), 28);
    assert_eq!(ctx.exp_u64(5, 96), 1);
    assert_eq!(ctx.exp_u64(0, 0), 1);
    assert_eq!(ctx.exp_u64(0, 5), 0);
    assert_eq!(ctx.exp_power_of_2(28, 5), 1);
    assert_eq!(ctx.exp_power_of_2(28, 4), 96);
    assert_eq!(ctx.two_inverse(), 49);
    assert_eq!(ctx.try_inverse(5), Some(39));
    assert_eq!(ctx.try_inverse(0), None);
    for a in 1..97 {
        let inverse = ctx.try_inverse(a).unwrap();
        assert_eq!(ctx.mul(a, inverse), 1);
    }
}

#[test]
fn arithmetic_near_the_top_of_goldilocks() {
    let ctx = FieldContext::goldilocks(2);
    let top = ctx.modulus - 1;
    assert_eq!(ctx.add(top, top), ctx.modulus - 2);
    assert_eq!(ctx.mul(top, top), 1);
    assert_eq!(ctx.sub(0, 1), top);
    assert_eq!(ctx.mul(1 << 63, 2), 0xFFFFFFFF);
    assert_eq!(ctx.two_inverse(), 9223372034707292161);
    assert_eq!(ctx.mul(2, ctx.two_inverse()), 1);
    assert_eq!(ctx.try_inverse(7), Some(ctx.exp_u64(7, ctx.modulus - 2)));
}

#[test]
fn roots_of_unity_have_their_order() {
    let ctx = small_field();
    assert_eq!(ctx.primitive_root_of_unity(0), 1);
    assert_eq!(ctx.primitive_root_of_unity(1), 96);
    assert_eq!(ctx.primitive_root_of_unity(5), 28);
    for n_log in 0..=5usize {
        let root = ctx.primitive_root_of_unity(n_log);
        assert_eq!(ctx.exp_u64(root, 1 << n_log), 1);
        if n_log > 0 {
            assert_eq!(ctx.exp_u64(root, 1 << (n_log - 1)), 96);
        }
    }
}

#[test]
fn random_elements_are_canonical() {
    let ctx = small_field();
    let drawn = ctx.rand_vec(1000);
    assert_eq!(drawn.len(), 1000);
    assert!(drawn.iter().all(|x| *x < 97));
    assert!(drawn.iter().any(|x| *x != drawn[0]));
    assert!(ctx.rand() < 97);
    assert!(ctx.rand_vec(0).is_empty());
}

#[test]
fn extension_arithmetic() {
    let ctx = small_field();
    // (1 + 2X)(3 + 4X) = 3 + 10X + 8X^2 = (3 + 8 * 5) + 10X
    assert_eq!(ctx.ext_mul(&vec![1, 2], &vec![3, 4]), vec![43, 10]);
    assert_eq!(ctx.ext_mul(&vec![0, 1], &vec![0, 1]), vec![5, 0]);
    assert_eq!(ctx.ext_add(&vec![96, 1], &vec![1, 96]), vec![0, 0]);
    assert_eq!(ctx.ext_sub(&vec![0, 1], &vec![1, 2]), vec![96, 96]);
    assert_eq!(ctx.ext_scale(&vec![2, 3], 50), vec![3, 53]);
    assert_eq!(ctx.ext_zero(), vec![0, 0]);
    assert_eq!(ctx.ext_one(), vec![1, 0]);
    assert_eq!(ctx.ext_from_base(9), vec![9, 0]);
    assert_eq!(ctx.ext_pow(&vec![0, 1], 0), vec![1, 0]);
    assert_eq!(ctx.ext_pow(&vec![0, 1], 3), vec![0, 5]);
    let a = vec![17, 80];
    assert_eq!(ctx.ext_mul(&a, &ctx.ext_one()), a);
}

#[test]
fn extension_of_degree_four() {
    let ctx = FieldContext::new(97, 5, 28, 5, 4, 5).unwrap();
    // X^3 * X^2 = X^5 = 5 X
    assert_eq!(ctx.ext_mul(&vec![0, 0, 0, 1], &vec![0, 0, 1, 0]), vec![0, 5, 0, 0]);
    // (1 + X + X^2 + X^3)^2 = 1 + 2X + 3X^2 + 4X^3 + 3X^4 + 2X^5 + X^6
    assert_eq!(ctx.ext_mul(&vec![1, 1, 1, 1], &vec![1, 1, 1, 1]), vec![16, 12, 8, 4]);
}

#[test]
fn a_field_of_degree_one_is_the_base_field() {
    let ctx = FieldContext::new(97, 5, 28, 5, 1, 5).unwrap();
    assert_eq!(ctx.ext_mul(&vec![50], &vec![2]), vec![3]);
    assert_eq!(ctx.ext_one(), vec![1]);
}

#[test]
fn the_coset_meets_no_subgroup() {
    let ctx = small_field();
    let subgroup: Vec<u64> = (0..32).map(|j| ctx.exp_u64(28, j)).collect();
    for n_log in 0..=5usize {
        let root = ctx.primitive_root_of_unity(n_log);
        for i in 0..(1u64 << n_log) {
            let point = ctx.mul(ctx.coset_shift, ctx.exp_u64(root, i));
            assert!(!subgroup.contains(&point));
        }
    }
    assert_eq!(ctx.exp_power_of_2(5, 5), 35);
}

#[test]
fn a_word_stands_for_its_residue() {
    let ctx = small_field();
    assert_eq!(ctx.from_noncanonical_u64(0), 0);
    assert_eq!(ctx.from_noncanonical_u64(96), 96);
    assert_eq!(ctx.from_noncanonical_u64(97), 0);
    assert_eq!(ctx.from_noncanonical_u64(1000), 30);
    assert_eq!(ctx.from_noncanonical_u64(u64::MAX), 60);
    let goldilocks = FieldContext::goldilocks(1);
    assert_eq!(goldilocks.from_noncanonical_u64(u64::MAX), 0xFFFF_FFFE);
    assert_eq!(goldilocks.from_noncanonical_u64(GOLDILOCKS_ORDER), 0);
}

#[test]
fn drawn_elements_are_canonical_and_vary() {
    let ctx = FieldContext::goldilocks(1);
    let drawn = ctx.rand_vec(64);
    assert_eq!(drawn.len(), 64);
    assert!(drawn.iter().all(|x| *x < ctx.modulus));
    assert!(drawn.iter().any(|x| *x != drawn[0]));
}
