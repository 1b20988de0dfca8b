use fri_oracle::field::FieldContext;
use fri_oracle::gates::{
    add_u32, add_u32s_with_carry, mul_u32, multiply_limbs, partial_product_columns,
    propagate_carries, MulBigUintGate, MulNonNativeGate, MulNonNativeGenerator,
};
use fri_oracle::target::Target;
use fri_oracle::vars::{EvaluationVars, EvaluationVarsBase};
use fri_oracle::witness::{GeneratedValues, PartitionWitness};
use num::BigUint;

fn padded_digits(value: &BigUint, len: usize) -> Vec<u32> {
    let mut digits = value.to_u32_digits();
    assert!(digits.len() <= len);
    digits.resize(len, 0);
    digits
}

#[test]
fn test_gate() {
    let gate = MulNonNativeGate::new(1);
    assert_eq!(gate.wire_ith_limb_of_multiplicand_0(0), 0);
    assert_eq!(gate.wire_ith_limb_of_multiplicand_1(0), 1);
    assert_eq!(gate.wire_ith_limb_of_output(1), 3);
    assert_eq!(gate.wires_multiplicand_0(), 0..1);
    assert_eq!(gate.wires_multiplicand_1(), 1..2);
    assert_eq!(gate.wires_ouput(), 2..4);
    assert_eq!(gate.num_wires(), 4);
    assert_eq!(gate.num_constants(), 0);
    assert_eq!(gate.num_constraints(), 2);

    let mut witness = PartitionWitness::new();
    witness.set_target(Target::wire(7, 0), 3);
    witness.set_target(Target::wire(7, 1), 5);
    let generators = gate.generators(7);
    assert_eq!(generators, vec![MulNonNativeGenerator { gate, row: 7 }]);
    assert_eq!(
        generators[0].dependencies(),
        vec![Target::wire(7, 0), Target::wire(7, 1)]
    );
    let mut out = GeneratedValues::empty();
    generators[0].run_once(&witness, &mut out);
    assert_eq!(
        out.target_values,
        vec![(Target::wire(7, 2), 15), (Target::wire(7, 3), 0)]
    );
}

#[test]
fn single_limb_three_times_five_is_fifteen() {
    let product = multiply_limbs(&vec![3], &vec![5]);
    assert_eq!(product, vec![15, 0]);
    assert_eq!(BigUint::new(product), BigUint::from(15u32));
}

#[test]
fn eight_limbs_of_ones_times_two() {
    let x = vec![0x11111111u32; 8];
    let y = vec![0x00000002u32, 0, 0, 0, 0, 0, 0, 0];
    let product = multiply_limbs(&x, &y);
    let expected = BigUint::from_slice(&x) * BigUint::from_slice(&y);
    assert_eq!(product.len(), 16);
    assert_eq!(product, padded_digits(&expected, 16));
    assert_eq!(
        product,
        vec![0x22222222, 0x22222222, 0x22222222, 0x22222222, 0x22222222, 0x22222222, 0x22222222,
            0x22222222, 0, 0, 0, 0, 0, 0, 0, 0]
    );
}

#[test]
fn limb_products_match_big_integer_products() {
    let mut state: u64 = 0x9E3779B97F4A7C15;
    let mut next = || {
        state ^= state << 13;
        state ^= state >> 7;
        state ^= state << 17;
        (state >> 16) as u32
    };
    for n0 in 0..6usize {
        for n1 in 0..6usize {
            let a: Vec<u32> = (0..n0).map(|_| next()).collect();
            let b: Vec<u32> = (0..n1).map(|_| next()).collect();
            let product = multiply_limbs(&a, &b);
            let expected = BigUint::from_slice(&a) * BigUint::from_slice(&b);
            assert_eq!(product, padded_digits(&expected, n0 + n1));
        }
    }
}

#[test]
fn largest_limbs_leave_no_carry() {
    let a = vec![u32::MAX; 4];
    let b = vec![u32::MAX; 4];
    let columns = partial_product_columns(&a, &b);
    assert_eq!(columns.len(), 8);
    let (limbs, carry) = propagate_carries(&columns);
    assert_eq!(carry, 0);
    let expected = BigUint::from_slice(&a) * BigUint::from_slice(&b);
    assert_eq!(limbs, padded_digits(&expected, 8));
    assert_eq!(limbs, vec![1, 0, 0, 0, 0xFFFFFFFE, 0xFFFFFFFF, 0xFFFFFFFF, 0xFFFFFFFF]);
}

#[test]
fn limb_helpers_split_low_and_carry() {
    assert_eq!(mul_u32(u32::MAX, u32::MAX), (1, 0xFFFFFFFE));
    assert_eq!(mul_u32(3, 5), (15, 0));
    assert_eq!(add_u32(u32::MAX, 1), (0, 1));
    assert_eq!(add_u32(7, 8), (15, 0));
    assert_eq!(add_u32s_with_carry(&vec![u32::MAX, u32::MAX, 2], 3), (3, 2));
    assert_eq!(add_u32s_with_carry(&vec![5], 4), (9, 0));
    assert_eq!(add_u32s_with_carry(&vec![], 9), (9, 0));
}

#[test]
fn column_sum_takes_the_carry_in_for_any_number_of_entries() {
    // two entries and a carry: 0xFFFFFFFF + 1 + carry 1 = 2^32 + 1
    assert_eq!(add_u32s_with_carry(&vec![u32::MAX, 1], 1), (1, 1));
}

#[test]
fn constraints_vanish_on_the_generated_output() {
    let ctx = FieldContext::goldilocks(2);
    let gate = MulNonNativeGate::new(2);
    let m0 = [0xFFFFFFFFu64, 0x12345678];
    let m1 = [0x9ABCDEF0u64, 0xFFFFFFFF];
    let mut witness = PartitionWitness::new();
    for i in 0..2 {
        witness.set_target(Target::wire(0, i), m0[i]);
        witness.set_target(Target::wire(0, 2 + i), m1[i]);
    }
    let mut out = GeneratedValues::empty();
    MulNonNativeGenerator { gate, row: 0 }.run_once(&witness, &mut out);
    let mut wires: Vec<u64> = Vec::new();
    wires.extend_from_slice(&m0);
    wires.extend_from_slice(&m1);
    for (i, (target, value)) in out.target_values.iter().enumerate() {
        assert_eq!(*target, Target::wire(0, 4 + i));
        wires.push(*value);
    }
    assert_eq!(wires.len(), 8);
    let vars = EvaluationVarsBase { local_constants: vec![], local_wires: wires.clone() };
    assert_eq!(gate.eval_unfiltered_base_one(&ctx, &vars), vec![0, 0, 0, 0]);

    // a wrong output limb shows in the constraint of that limb
    let mut wrong = wires.clone();
    wrong[5] = (wrong[5] + 1) % (1 << 32);
    let vars = EvaluationVarsBase { local_constants: vec![], local_wires: wrong };
    assert_eq!(gate.eval_unfiltered_base_one(&ctx, &vars), vec![0, 1, 0, 0]);

    // an output limb that is too small gives the negative difference
    let mut wrong = wires.clone();
    let expected_limb = wrong[4];
    wrong[4] = 0;
    let vars = EvaluationVarsBase { local_constants: vec![], local_wires: wrong };
    let constraints = gate.eval_unfiltered_base_one(&ctx, &vars);
    assert_eq!(constraints[0], ctx.neg(expected_limb));
}

#[test]
fn extension_constraints_group_limbs_by_degree() {
    let ctx = FieldContext::goldilocks(2);
    let gate = MulNonNativeGate::new(1);
    // the multiplicands have two limbs each: the coordinates of one wire
    let m0 = vec![3u64, 1];
    let m1 = vec![5u64, 0];
    // (3 + 2^32) * 5 = 15 + 5 * 2^32
    let out0 = vec![15u64, 5];
    let out1 = vec![0u64, 0];
    let vars = EvaluationVars {
        local_constants: vec![],
        local_wires: vec![m0.clone(), m1.clone(), out0, out1],
    };
    assert_eq!(gate.eval_unfiltered(&ctx, &vars), vec![vec![0, 0], vec![0, 0]]);
    let vars = EvaluationVars {
        local_constants: vec![],
        local_wires: vec![m0, m1, vec![15, 7], vec![0, 0]],
    };
    assert_eq!(gate.eval_unfiltered(&ctx, &vars), vec![vec![0, 2], vec![0, 0]]);
}

#[test]
fn big_integer_gate_multiplies_unequal_lengths() {
    let gate = MulBigUintGate::new(2, 1);
    assert_eq!(gate.wires_multiplicand_0(), 0..2);
    assert_eq!(gate.wires_multiplicand_1(), 2..3);
    assert_eq!(gate.wires_output(), 3..6);
    assert_eq!(gate.num_wires(), 6);
    let mut witness = PartitionWitness::new();
    witness.set_target(Target::wire(1, 0), 0xFFFFFFFF);
    witness.set_target(Target::wire(1, 1), 0xFFFFFFFF);
    witness.set_target(Target::wire(1, 2), 0xFFFFFFFF);
    let mut out = GeneratedValues::empty();
    gate.run_once(1, &witness, &mut out);
    // (2^64 - 1) * (2^32 - 1) = 2^96 - 2^64 - 2^32 + 1
    assert_eq!(
        out.target_values,
        vec![
            (Target::wire(1, 3), 1),
            (Target::wire(1, 4), 0xFFFFFFFF),
            (Target::wire(1, 5), 0xFFFFFFFE),
        ]
    );
}
