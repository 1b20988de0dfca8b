use fri_oracle::circuit_builder::CircuitBuilder;
use fri_oracle::field::FieldContext;
use fri_oracle::gadgets::{BigUintAritmetic, NonNativeAritmetic, NonNativeTarget};
use fri_oracle::gate_circuit::mul_limbs_circuit;
use fri_oracle::gates::{GateInstance, MulBigUintGate, MulNonNativeGate, MulNonNativeGenerator};
use fri_oracle::target::Target;
use fri_oracle::vars::{
    BigUintTarget, BigUintTargetToVecFieldExtTargets, BigUintToVecField, BigUintToVecFieldExt,
    EvaluationTargets, EvaluationVars, EvaluationVarsBase, FieldExtTargetsToBigUintTarget,
    FieldExtToBigUint, FieldToBigUint, U32Target,
};
use fri_oracle::nonnative_target::NonnativeTarget;
use fri_oracle::witness::{GeneratedValues, PartitionWitness};
use num::BigUint;

/// Carries values along the copy constraints until nothing changes.
fn propagate(builder: &CircuitBuilder, witness: &mut PartitionWitness) {
    loop {
        let mut changed = false;
        for (a, b) in &builder.copy_constraints {
            match (witness.try_get_target(*a), witness.try_get_target(*b)) {
                (Some(x), None) => {
                    witness.set_target(*b, x);
                    changed = true;
                }
                (None, Some(y)) => {
                    witness.set_target(*a, y);
                    changed = true;
                }
                _ => {}
            }
        }
        if !changed {
            break;
        }
    }
}

fn run_generators(builder: &CircuitBuilder, witness: &mut PartitionWitness) {
    for (row, gate) in builder.gate_instances.iter().enumerate() {
        let mut out = GeneratedValues::empty();
        match gate {
            GateInstance::MulNonNative(gate) => {
                MulNonNativeGenerator { gate: *gate, row }.run_once(witness, &mut out)
            }
            GateInstance::MulBigUint(gate) => gate.run_once(row, witness, &mut out),
        }
        for (target, value) in out.target_values {
            witness.set_target(target, value);
        }
    }
}

fn set_constants(builder: &CircuitBuilder, witness: &mut PartitionWitness) {
    let values = builder.evaluate_all(witness);
    for (index, value) in values.iter().enumerate() {
        let target = Target::VirtualTarget { index };
        if witness.try_get_target(target).is_none() {
            witness.set_target(target, *value);
        }
    }
}

fn set_biguint_target(witness: &mut PartitionWitness, target: &BigUintTarget, value: &BigUint) {
    let mut limbs = value.to_u32_digits();
    assert!(target.num_limbs() >= limbs.len());
    limbs.resize(target.num_limbs(), 0);
    for i in 0..target.num_limbs() {
        witness.set_target(target.limbs[i].0, limbs[i] as u64);
    }
}

#[test]
fn test_biguint_gadget() {
    let ctx = FieldContext::goldilocks(2);
    let x_value = BigUint::from_slice(&[0x00000003]);
    let y_value = BigUint::from_slice(&[0x00000005]);
    let expected_z_value = &x_value * &y_value;

    let mut pw = PartitionWitness::new();
    let mut builder = CircuitBuilder::new(ctx);

    let x = builder.add_virtual_biguint_target(x_value.to_u32_digits().len());
    let y = builder.add_virtual_biguint_target(y_value.to_u32_digits().len());
    let z = builder.mul_biguint_gate(&x, &y);
    let expected_z = builder.add_virtual_biguint_target(expected_z_value.to_u32_digits().len());
    builder.connect_biguint(&z, &expected_z);

    set_biguint_target(&mut pw, &x, &x_value);
    set_biguint_target(&mut pw, &y, &y_value);
    set_biguint_target(&mut pw, &expected_z, &expected_z_value);

    println!("{}", builder.num_gates());
    assert_eq!(builder.num_gates(), 1);
    assert_eq!(
        builder.gate_instances,
        vec![GateInstance::MulBigUint(MulBigUintGate { num_limbs_0: 1, num_limbs_1: 1 })]
    );
    set_constants(&builder, &mut pw);
    propagate(&builder, &mut pw);
    run_generators(&builder, &mut pw);
    assert!(pw.copy_constraints_hold(&builder));

    let product: Vec<u32> =
        z.limbs.iter().map(|limb| pw.get_target(limb.0) as u32).collect();
    assert_eq!(BigUint::new(product), BigUint::from(15u32));
}

#[test]
fn a_wrong_product_breaks_a_copy_constraint() {
    let ctx = FieldContext::goldilocks(2);
    let mut pw = PartitionWitness::new();
    let mut builder = CircuitBuilder::new(ctx);
    let x = builder.add_virtual_biguint_target(1);
    let y = builder.add_virtual_biguint_target(1);
    let z = builder.mul_biguint_gate(&x, &y);
    let expected_z = builder.add_virtual_biguint_target(1);
    builder.connect_biguint(&z, &expected_z);
    set_biguint_target(&mut pw, &x, &BigUint::from(3u32));
    set_biguint_target(&mut pw, &y, &BigUint::from(5u32));
    set_biguint_target(&mut pw, &expected_z, &BigUint::from(16u32));
    set_constants(&builder, &mut pw);
    // the operands reach the wires, the product is generated
    for (a, b) in builder.copy_constraints.iter().take(2) {
        let value = pw.get_target(*a);
        pw.set_target(*b, value);
    }
    run_generators(&builder, &mut pw);
    assert!(!pw.copy_constraints_hold(&builder));
}

#[test]
fn test_gadget() {
    let ctx = FieldContext::goldilocks(2);
    let x_ff = BigUint::from_slice(&[
        0x11111111, 0x11111111, 0x11111111, 0x11111111, 0x11111111, 0x11111111, 0x11111111,
        0x11111111,
    ]);
    let y_ff = BigUint::from_slice(&[
        0x00000002, 0x00000000, 0x00000000, 0x00000000, 0x00000000, 0x00000000, 0x00000000,
        0x00000000,
    ]);
    let product_ff = &x_ff * &y_ff;

    let mut pw = PartitionWitness::new();
    let mut builder = CircuitBuilder::new(ctx);

    let mut limbs_of = |value: &BigUint| {
        let mut limbs = value.to_u32_digits();
        limbs.resize(8, 0);
        limbs
    };
    let x_limbs = limbs_of(&x_ff);
    let y_limbs = limbs_of(&y_ff);
    let product_limbs = limbs_of(&product_ff);
    let x = NonNativeTarget { value: builder.constant_biguint(&x_limbs) };
    let y = NonNativeTarget { value: builder.constant_biguint(&y_limbs) };
    let product = builder.mul_nonnative_gate(256, &x, &y);
    assert_eq!(product.value.num_limbs(), 16);

    let product_expected = NonNativeTarget { value: builder.constant_biguint(&product_limbs) };
    builder.connect_nonnative(&product, &product_expected);

    println!("{}", builder.num_gates());
    assert_eq!(
        builder.gate_instances,
        vec![GateInstance::MulNonNative(MulNonNativeGate { num_limbs: 8 })]
    );
    set_constants(&builder, &mut pw);
    propagate(&builder, &mut pw);
    run_generators(&builder, &mut pw);
    assert!(pw.copy_constraints_hold(&builder));

    let generated: Vec<u32> =
        product.value.limbs.iter().map(|limb| pw.get_target(limb.0) as u32).collect();
    assert_eq!(BigUint::new(generated), product_ff);
    assert_eq!(CircuitBuilder::num_nonnative_limbs(256), 8);
    assert_eq!(CircuitBuilder::num_nonnative_limbs(255), 8);
    assert_eq!(CircuitBuilder::num_nonnative_limbs(257), 9);
    assert_eq!(CircuitBuilder::num_nonnative_limbs(0), 0);
}

#[test]
fn rows_read_as_big_integers() {
    let vars = EvaluationVarsBase {
        local_constants: vec![],
        local_wires: vec![3, 0x1_0000_0005, 0, 0, 9],
    };
    // the low 32 bits of each wire, and no zeros at the top
    assert_eq!(vars.get_local_biguint(0..4), BigUint::new(vec![3, 5]));
    assert_eq!(vars.get_local_biguint(0..4).to_u32_digits(), vec![3, 5]);
    assert_eq!(vars.get_local_biguint(2..4), BigUint::from(0u32));
    assert_eq!(vars.get_local_biguint(1..1), BigUint::from(0u32));
    assert_eq!(vars.get_local_biguint(4..5), BigUint::from(9u32));

    let ext = EvaluationVars {
        local_constants: vec![],
        local_wires: vec![vec![1, 2], vec![3, 4], vec![0, 0]],
    };
    assert_eq!(ext.get_local_biguint_algebra(0..3), BigUint::new(vec![1, 2, 3, 4]));
    assert_eq!(ext.get_local_biguint_algebra(1..2), BigUint::new(vec![3, 4]));
}

#[test]
fn big_integers_written_out_as_field_elements() {
    let value = BigUint::new(vec![7, 0, 9]);
    assert_eq!(BigUintToVecField::to_basefield_array(&value), vec![7, 0, 9]);
    assert_eq!(
        BigUintToVecFieldExt::to_basefield_array(&value, 2),
        vec![vec![7, 0], vec![9, 0]]
    );
    assert_eq!(
        BigUintToVecFieldExt::to_basefield_array(&value, 3),
        vec![vec![7, 0, 9]]
    );
    assert_eq!(
        BigUintToVecFieldExt::to_basefield_array(&value, 1),
        vec![vec![7], vec![0], vec![9]]
    );
    let zero = BigUint::from(0u32);
    assert_eq!(BigUintToVecField::to_basefield_array(&zero), Vec::<u64>::new());
    assert_eq!(BigUintToVecFieldExt::to_basefield_array(&zero, 2), Vec::<Vec<u64>>::new());
    let wide = BigUint::from(0x1_0000_0000u64);
    assert_eq!(BigUintToVecField::to_basefield_array(&wide), vec![0, 1]);
}

#[test]
fn rows_of_targets_read_as_limbs() {
    let targets = EvaluationTargets {
        local_constants: vec![],
        local_wires: vec![
            NonnativeTarget::from_range(0, 0..2),
            NonnativeTarget::from_range(0, 2..4),
            NonnativeTarget::from_range(0, 4..6),
        ],
    };
    let limbs = targets.get_local_biguint_algebra(1..3);
    assert_eq!(
        limbs.limbs,
        vec![
            U32Target(Target::wire(0, 2)),
            U32Target(Target::wire(0, 3)),
            U32Target(Target::wire(0, 4)),
            U32Target(Target::wire(0, 5)),
        ]
    );
    let back = limbs.to_ext_target_array(2);
    assert_eq!(back.len(), 2);
    assert_eq!(back[0].0, targets.local_wires[1].0);
    assert_eq!(back[1].0, targets.local_wires[2].0);
}

#[test]
fn unequal_big_integers_tie_the_upper_limbs_to_zero() {
    let ctx = FieldContext::goldilocks(2);
    let mut builder = CircuitBuilder::new(ctx);
    let long = builder.add_virtual_biguint_target(3);
    let short = builder.add_virtual_biguint_target(1);
    builder.connect_biguint(&long, &short);
    assert_eq!(builder.copy_constraints.len(), 3);
    assert_eq!(builder.copy_constraints[0], (long.limbs[0].0, short.limbs[0].0));
    let zero = builder.copy_constraints[1].1;
    assert_eq!(builder.copy_constraints[1], (long.limbs[1].0, zero));
    assert_eq!(builder.copy_constraints[2], (long.limbs[2].0, zero));
    assert_eq!(builder.evaluate(&PartitionWitness::new(), zero), 0);
    let mut witness = PartitionWitness::new();
    set_biguint_target(&mut witness, &long, &BigUint::from(77u32));
    propagate(&builder, &mut witness);
    set_constants(&builder, &mut witness);
    assert!(witness.copy_constraints_hold(&builder));
    assert_eq!(witness.get_target(short.limbs[0].0), 77);
}

#[test]
fn the_circuit_multiplies_limbs_as_big_integers_multiply() {
    let ctx = FieldContext::goldilocks(2);
    let mut builder = CircuitBuilder::new(ctx);
    let m0: Vec<Target> = (0..3).map(|c| Target::wire(0, c)).collect();
    let m1: Vec<Target> = (0..2).map(|c| Target::wire(1, c)).collect();
    let product = mul_limbs_circuit(&mut builder, &m0, &m1);
    assert_eq!(product.len(), 5);
    let cases: Vec<(Vec<u64>, Vec<u64>)> = vec![
        (vec![3, 0, 0], vec![5, 0]),
        (vec![0xFFFFFFFF, 0xFFFFFFFF, 0xFFFFFFFF], vec![0xFFFFFFFF, 0xFFFFFFFF]),
        (vec![0x12345678, 0x9ABCDEF0, 0x0F1E2D3C], vec![0xDEADBEEF, 0x0BADF00D]),
        (vec![0, 0, 0], vec![7, 7]),
        // only the low 32 bits of a wire count
        (vec![0x7_0000_0003, 0, 0], vec![0x1_0000_0005, 0]),
    ];
    for (a, b) in cases {
        let mut witness = PartitionWitness::new();
        for i in 0..3 {
            witness.set_target(m0[i], a[i]);
        }
        for j in 0..2 {
            witness.set_target(m1[j], b[j]);
        }
        let limbs: Vec<u32> =
            product.iter().map(|t| builder.evaluate(&witness, *t) as u32).collect();
        let a32: Vec<u32> = a.iter().map(|x| *x as u32).collect();
        let b32: Vec<u32> = b.iter().map(|x| *x as u32).collect();
        let expected = BigUint::new(a32) * BigUint::new(b32);
        assert_eq!(BigUint::new(limbs), expected);
    }
}

#[test]
fn the_circuit_yields_the_constraints_of_direct_evaluation() {
    let ctx = FieldContext::goldilocks(2);
    let gate = MulNonNativeGate::new(1);
    let mut builder = CircuitBuilder::new(ctx);
    let wires: Vec<NonnativeTarget> =
        (0..4).map(|c| NonnativeTarget::from_range(0, 2 * c..2 * c + 2)).collect();
    let targets = EvaluationTargets {
        local_constants: vec![],
        local_wires: wires.iter().map(|t| NonnativeTarget(t.0.clone())).collect(),
    };
    let constraints = gate.eval_unfiltered_circuit(&mut builder, &targets);
    assert_eq!(constraints.len(), 2);
    let rows: Vec<Vec<Vec<u64>>> = vec![
        // (3 + 2^32) * 5 = 15 + 5 * 2^32
        vec![vec![3, 1], vec![5, 0], vec![15, 5], vec![0, 0]],
        vec![vec![3, 1], vec![5, 0], vec![15, 7], vec![0, 0]],
        vec![
            vec![0xFFFFFFFF, 0xFFFFFFFF],
            vec![0xFFFFFFFF, 0xFFFFFFFF],
            vec![1, 2],
            vec![3, 4],
        ],
    ];
    for row in rows {
        let mut witness = PartitionWitness::new();
        for (c, value) in row.iter().enumerate() {
            witness.set_target(wires[c].0[0], value[0]);
            witness.set_target(wires[c].0[1], value[1]);
        }
        let in_circuit: Vec<Vec<u64>> = constraints
            .iter()
            .map(|t| t.0.iter().map(|x| builder.evaluate(&witness, *x)).collect())
            .collect();
        let vars = EvaluationVars { local_constants: vec![], local_wires: row };
        assert_eq!(in_circuit, gate.eval_unfiltered(&ctx, &vars));
    }
}

#[test]
fn extension_targets_from_vectors() {
    let targets = vec![Target::wire(0, 0), Target::wire(0, 1)];
    let same = NonnativeTarget::try_from(targets.clone(), 2).unwrap();
    assert_eq!(same.0, targets);
    assert_eq!(NonnativeTarget::try_from(targets.clone(), 3).unwrap_err(), targets);
}
