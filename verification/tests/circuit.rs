use fri_oracle::circuit_builder::CircuitBuilder;
use fri_oracle::constraint_consumer::{ConstraintConsumer, RecursiveConstraintConsumer};
use fri_oracle::field::FieldContext;
use fri_oracle::memory::{
    eval_memory, eval_memory_recursively, generate_memory, memory_constraint_value,
    ContractMemory,
    MemorySegment, StarkEvaluationTargets, StarkEvaluationVars, TransactionMemory,
    NUM_MEMORY_CONSTRAINTS,
};
use fri_oracle::nonnative_target::{
    flatten_target, unflatten_target, NonnativeAlgebraTarget, NonnativeTarget,
};
use fri_oracle::registers::{
    col_rc_degree_input, MEMORY_ALL_TRACES_COMBINED, MEMORY_CURRENT, MEMORY_TRACE_CONTEXT,
    MEMORY_TRACE_SEGMENT, MEMORY_TRACE_VIRTUAL, MEMORY_TWO_TRACES_COMBINED, NUM_COLUMNS,
    SORTED_MEMORY_ADDR_CONTEXT, SORTED_MEMORY_ADDR_SEGMENT, SORTED_MEMORY_ADDR_VIRTUAL,
    SORTED_MEMORY_FROM, SORTED_MEMORY_TIMESTAMP, SORTED_MEMORY_TO,
};
use fri_oracle::target::{Target, Wire};
use fri_oracle::witness::PartitionWitness;

fn small_field() -> FieldContext {
    FieldContext::new(97, 5, 28, 5, 2, 5).unwrap()
}

fn values_of(builder: &CircuitBuilder, witness: &PartitionWitness, t: &NonnativeTarget) -> Vec<u64> {
    t.0.iter().map(|target| builder.evaluate(witness, *target)).collect()
}

#[test]
fn targets_of_wires() {
    assert_eq!(Target::wire(2, 3), Target::Wire(Wire { row: 2, column: 3 }));
    assert_eq!(
        Target::wires_from_range(4, 1..3),
        vec![Target::wire(4, 1), Target::wire(4, 2)]
    );
    assert!(Target::wires_from_range(4, 3..3).is_empty());
    let t = NonnativeTarget::from_range(9, 5..7);
    assert_eq!(t.to_target_array(), vec![Target::wire(9, 5), Target::wire(9, 6)]);
    let algebra = NonnativeAlgebraTarget(vec![
        NonnativeTarget::from_range(0, 0..2),
        NonnativeTarget::from_range(0, 2..4),
    ]);
    let parts = algebra.to_nonnative_target_array();
    assert_eq!(parts.len(), 2);
    assert_eq!(parts[1].0, vec![Target::wire(0, 2), Target::wire(0, 3)]);
}

#[test]
fn flatten_and_unflatten_are_inverse() {
    let l = vec![NonnativeTarget::from_range(1, 0..2), NonnativeTarget::from_range(1, 2..4)];
    let flat = flatten_target(&l);
    assert_eq!(
        flat,
        vec![Target::wire(1, 0), Target::wire(1, 1), Target::wire(1, 2), Target::wire(1, 3)]
    );
    let back = unflatten_target(&flat, 2);
    assert_eq!(back.len(), 2);
    assert_eq!(back[0].0, l[0].0);
    assert_eq!(back[1].0, l[1].0);
    assert!(flatten_target(&vec![]).is_empty());
    assert!(unflatten_target(&vec![], 3).is_empty());
    let whole = unflatten_target(&flat, 4);
    assert_eq!(whole.len(), 1);
    assert_eq!(whole[0].0, flat);
}

#[test]
fn builder_operations_compute_in_the_field() {
    let ctx = small_field();
    let mut builder = CircuitBuilder::new(ctx);
    let x = Target::wire(0, 0);
    let input = builder.add_virtual_target();
    let c = builder.constant(90);
    let sum = builder.add(x, c);
    let difference = builder.sub(c, x);
    let product = builder.mul(sum, input);
    let zero = builder.zero();
    let one = builder.one();
    let mut witness = PartitionWitness::new();
    witness.set_target(x, 10);
    witness.set_target(input, 4);
    assert_eq!(builder.evaluate(&witness, x), 10);
    assert_eq!(builder.evaluate(&witness, input), 4);
    assert_eq!(builder.evaluate(&witness, c), 90);
    assert_eq!(builder.evaluate(&witness, sum), 3);
    assert_eq!(builder.evaluate(&witness, difference), 80);
    assert_eq!(builder.evaluate(&witness, product), 12);
    assert_eq!(builder.evaluate(&witness, zero), 0);
    assert_eq!(builder.evaluate(&witness, one), 1);
    assert_eq!(builder.evaluate_all(&witness), vec![4, 90, 3, 80, 12, 0, 1]);
    // a wire that the witness does not hold counts as zero
    assert_eq!(builder.evaluate(&PartitionWitness::new(), sum), 90);
    assert_eq!(builder.num_gates(), 0);
}

#[test]
fn constant_extension_targets() {
    let ctx = small_field();
    let mut builder = CircuitBuilder::new(ctx);
    let witness = PartitionWitness::new();
    let c = builder.constant_nonnative(&vec![12, 34]);
    let zero = builder.zero_nonnative();
    let one = builder.one_nonnative();
    let two = builder.two_nonnative();
    let neg_one = builder.neg_one_nonnative();
    assert_eq!(values_of(&builder, &witness, &c), vec![12, 34]);
    assert_eq!(values_of(&builder, &witness, &zero), vec![0, 0]);
    assert_eq!(values_of(&builder, &witness, &one), vec![1, 0]);
    assert_eq!(values_of(&builder, &witness, &two), vec![2, 0]);
    assert_eq!(values_of(&builder, &witness, &neg_one), vec![96, 0]);
    let algebra = builder.constant_nonnative_algebra(&vec![vec![1, 2], vec![3, 4]]);
    assert_eq!(values_of(&builder, &witness, &algebra.0[0]), vec![1, 2]);
    assert_eq!(values_of(&builder, &witness, &algebra.0[1]), vec![3, 4]);
    let zero_algebra = builder.zero_nonnative_algebra();
    assert_eq!(zero_algebra.0.len(), 2);
    assert_eq!(values_of(&builder, &witness, &zero_algebra.0[1]), vec![0, 0]);
}

#[test]
fn conversions_fill_up_with_zeros() {
    let ctx = small_field();
    let mut builder = CircuitBuilder::new(ctx);
    let x = Target::wire(0, 0);
    let mut witness = PartitionWitness::new();
    witness.set_target(x, 55);
    let ext = builder.convert_to_nonnative(x);
    assert_eq!(ext.0[0], x);
    assert_eq!(values_of(&builder, &witness, &ext), vec![55, 0]);
    let algebra = builder.convert_to_nonnative_algebra(NonnativeTarget(ext.0.clone()));
    assert_eq!(algebra.0.len(), 2);
    assert_eq!(values_of(&builder, &witness, &algebra.0[0]), vec![55, 0]);
    assert_eq!(values_of(&builder, &witness, &algebra.0[1]), vec![0, 0]);
}

#[test]
fn frobenius_multiplies_coordinates_by_powers_of_a_constant() {
    let ctx = small_field();
    let mut builder = CircuitBuilder::new(ctx);
    let a = NonnativeTarget::from_range(0, 0..2);
    let mut witness = PartitionWitness::new();
    witness.set_target(Target::wire(0, 0), 20);
    witness.set_target(Target::wire(0, 1), 30);
    // z = w^((97 - 1) / 2) = 5^48 = -1, since 5 is no square modulo 97
    let once = a.frobenius(&mut builder);
    assert_eq!(values_of(&builder, &witness, &once), vec![20, 67]);
    let twice = a.repeated_frobenius(2, &mut builder);
    assert_eq!(twice.0, a.0);
    let thrice = a.repeated_frobenius(3, &mut builder);
    assert_eq!(values_of(&builder, &witness, &thrice), vec![20, 67]);
    let never = a.repeated_frobenius(0, &mut builder);
    assert_eq!(never.0, a.0);
    // the Frobenius map is raising to the power of the field's order
    let value = vec![20u64, 30];
    assert_eq!(ctx.ext_pow(&value, 97), vec![20, 67]);
}

#[test]
fn extension_operations_in_the_circuit() {
    let ctx = small_field();
    let mut builder = CircuitBuilder::new(ctx);
    let a = builder.constant_nonnative(&vec![1, 2]);
    let b = builder.constant_nonnative(&vec![3, 4]);
    let alpha = builder.constant(10);
    let product = builder.mul_extension(&a, &b);
    let difference = builder.sub_extension(&a, &b);
    let combined = builder.scalar_mul_add_extension(alpha, &a, &b);
    let one = builder.one_extension();
    let witness = PartitionWitness::new();
    assert_eq!(values_of(&builder, &witness, &product), ctx.ext_mul(&vec![1, 2], &vec![3, 4]));
    assert_eq!(values_of(&builder, &witness, &product), vec![43, 10]);
    assert_eq!(values_of(&builder, &witness, &difference), vec![95, 95]);
    assert_eq!(values_of(&builder, &witness, &combined), vec![13, 24]);
    assert_eq!(values_of(&builder, &witness, &one), vec![1, 0]);
}

fn memory_rows(ctx: &FieldContext) -> (Vec<Vec<u64>>, Vec<Vec<u64>>) {
    let base = |x: u64| ctx.ext_from_base(x);
    let mut local = vec![base(0); NUM_COLUMNS];
    let mut next = vec![base(0); NUM_COLUMNS];
    // the same context and segment, the virtual address grows by three
    local[SORTED_MEMORY_ADDR_CONTEXT] = base(4);
    next[SORTED_MEMORY_ADDR_CONTEXT] = base(4);
    local[SORTED_MEMORY_ADDR_SEGMENT] = base(2);
    next[SORTED_MEMORY_ADDR_SEGMENT] = base(2);
    local[SORTED_MEMORY_ADDR_VIRTUAL] = base(10);
    next[SORTED_MEMORY_ADDR_VIRTUAL] = base(13);
    local[SORTED_MEMORY_TIMESTAMP] = base(50);
    next[SORTED_MEMORY_TIMESTAMP] = base(20);
    local[SORTED_MEMORY_FROM] = base(0);
    local[SORTED_MEMORY_TO] = base(33);
    local[MEMORY_TRACE_CONTEXT] = base(1);
    local[MEMORY_TRACE_SEGMENT] = base(1);
    local[MEMORY_TRACE_VIRTUAL] = base(0);
    local[MEMORY_TWO_TRACES_COMBINED] = base(0);
    local[MEMORY_ALL_TRACES_COMBINED] = base(0);
    local[MEMORY_CURRENT] = base(0);
    next[MEMORY_CURRENT] = base(0);
    // the segment stays, the virtual address moves by three, less one
    local[col_rc_degree_input(0)] = base(0);
    local[col_rc_degree_input(1)] = base(3);
    local[col_rc_degree_input(2)] = base(2);
    (local, next)
}

#[test]
fn memory_constraints_vanish_on_an_ordered_step() {
    let ctx = small_field();
    let (local, next) = memory_rows(&ctx);
    let vars = StarkEvaluationVars { local_values: local, next_values: next, public_inputs: vec![] };
    for k in 0..NUM_MEMORY_CONSTRAINTS {
        assert_eq!(memory_constraint_value(&ctx, &vars, k), vec![0, 0], "constraint {}", k);
    }
    let mut consumer = ConstraintConsumer::new(&ctx, vec![3, 5], vec![7, 1], vec![1, 0], vec![0, 0]);
    eval_memory(&ctx, &vars, &mut consumer);
    assert_eq!(consumer.constraint_accs, vec![vec![0, 0], vec![0, 0]]);
}

#[test]
fn memory_constraints_catch_a_flag_that_is_not_boolean() {
    let ctx = small_field();
    let (mut local, next) = memory_rows(&ctx);
    local[MEMORY_TRACE_VIRTUAL] = ctx.ext_from_base(2);
    let vars = StarkEvaluationVars { local_values: local, next_values: next, public_inputs: vec![] };
    // 2 * (1 - 2) = -2
    assert_eq!(memory_constraint_value(&ctx, &vars, 2), vec![95, 0]);
    // 2 * (13 - 10) = 6
    assert_eq!(memory_constraint_value(&ctx, &vars, 5), vec![6, 0]);
    let mut consumer = ConstraintConsumer::new(&ctx, vec![1], vec![1, 0], vec![1, 0], vec![0, 0]);
    eval_memory(&ctx, &vars, &mut consumer);
    assert_ne!(consumer.constraint_accs, vec![vec![0, 0]]);
}

#[test]
fn consumer_folds_constraints_with_its_challenge() {
    let ctx = small_field();
    let mut consumer = ConstraintConsumer::new(&ctx, vec![10], vec![2, 0], vec![3, 0], vec![4, 0]);
    consumer.constraint_wrapping(&ctx, &vec![1, 1]);
    assert_eq!(consumer.constraint_accs, vec![vec![1, 1]]);
    // acc * 10 + c * z_last = (10, 10) + (2 * 5, 2 * 6)
    consumer.constraint(&ctx, &vec![5, 6]);
    assert_eq!(consumer.constraint_accs, vec![vec![20, 22]]);
    // acc * 10 + c * first = (200, 220) + (3, 0)
    consumer.constraint_first_row(&ctx, &vec![1, 0]);
    assert_eq!(consumer.constraint_accs, vec![vec![9, 26]]);
    // acc * 10 + c * last = (90, 260) + (0, 4)
    consumer.constraint_last_row(&ctx, &vec![0, 1]);
    assert_eq!(consumer.constraint_accs, vec![vec![90, 70]]);
}

#[test]
fn the_circuit_computes_what_direct_evaluation_computes() {
    let ctx = small_field();
    let mut state: u64 = 12345;
    let mut next_value = || {
        state = state.wrapping_mul(6364136223846793005).wrapping_add(1442695040888963407);
        (state >> 33) % 97
    };
    let local: Vec<Vec<u64>> = (0..NUM_COLUMNS).map(|_| vec![next_value(), next_value()]).collect();
    let next: Vec<Vec<u64>> = (0..NUM_COLUMNS).map(|_| vec![next_value(), next_value()]).collect();
    let alphas = vec![next_value(), next_value(), next_value()];
    let z_last = vec![next_value(), next_value()];
    let first = vec![next_value(), next_value()];
    let last = vec![next_value(), next_value()];

    let vars = StarkEvaluationVars {
        local_values: local.clone(),
        next_values: next.clone(),
        public_inputs: vec![],
    };
    let mut consumer =
        ConstraintConsumer::new(&ctx, alphas.clone(), z_last.clone(), first.clone(), last.clone());
    eval_memory(&ctx, &vars, &mut consumer);

    let mut builder = CircuitBuilder::new(ctx);
    let mut witness = PartitionWitness::new();
    let mut row_targets = |row: usize, values: &Vec<Vec<u64>>, witness: &mut PartitionWitness| {
        (0..NUM_COLUMNS)
            .map(|c| {
                let t = NonnativeTarget::from_range(row, 2 * c..2 * c + 2);
                witness.set_target(t.0[0], values[c][0]);
                witness.set_target(t.0[1], values[c][1]);
                t
            })
            .collect::<Vec<_>>()
    };
    let targets = StarkEvaluationTargets {
        local_values: row_targets(0, &local, &mut witness),
        next_values: row_targets(1, &next, &mut witness),
        public_inputs: vec![],
    };
    let alpha_targets: Vec<Target> = alphas.iter().map(|a| builder.constant(*a)).collect();
    let mut recursive = RecursiveConstraintConsumer {
        alphas: alpha_targets,
        constraint_accs: (0..3).map(|_| builder.zero_nonnative()).collect(),
        z_last: builder.constant_nonnative(&z_last),
        lagrange_basis_first: builder.constant_nonnative(&first),
        lagrange_basis_last: builder.constant_nonnative(&last),
    };
    eval_memory_recursively(&mut builder, &targets, &mut recursive);
    for i in 0..3 {
        assert_eq!(
            values_of(&builder, &witness, &recursive.constraint_accs[i]),
            consumer.constraint_accs[i]
        );
    }
    assert_ne!(consumer.constraint_accs[0], vec![0, 0]);
}

#[test]
fn memory_segments_hold_bytes() {
    let segment = |bytes: &[u8]| MemorySegment { content: bytes.to_vec() };
    let call = ContractMemory {
        code: segment(&[0x60, 0x00]),
        main: segment(&[]),
        calldata: segment(&[1, 2, 3]),
        returndata: segment(&[]),
    };
    let mut memory = TransactionMemory::default();
    assert!(memory.calls.is_empty());
    memory.calls.push(call);
    assert_eq!(memory.calls[0].calldata.content, vec![1, 2, 3]);
    assert_eq!(memory.calls[0].code.content.len(), 2);
}

#[test]
fn generated_columns_satisfy_their_constraints() {
    let ctx = FieldContext::new(97, 5, 28, 5, 1, 5).unwrap();
    let mut row = vec![0u64; NUM_COLUMNS];
    row[MEMORY_TRACE_CONTEXT] = 1;
    row[MEMORY_TRACE_SEGMENT] = 0;
    row[MEMORY_TRACE_VIRTUAL] = 0;
    row[SORTED_MEMORY_FROM] = 44;
    row[SORTED_MEMORY_TO] = 45;
    let before = row.clone();
    generate_memory(&ctx, &mut row);
    assert_eq!(row[MEMORY_TWO_TRACES_COMBINED], 0);
    assert_eq!(row[MEMORY_ALL_TRACES_COMBINED], 0);
    assert_eq!(row[MEMORY_CURRENT], 44);
    for c in 0..NUM_COLUMNS {
        if c != MEMORY_TWO_TRACES_COMBINED && c != MEMORY_ALL_TRACES_COMBINED && c != MEMORY_CURRENT {
            assert_eq!(row[c], before[c]);
        }
    }
    let mut free = vec![0u64; NUM_COLUMNS];
    free[SORTED_MEMORY_FROM] = 9;
    generate_memory(&ctx, &mut free);
    assert_eq!(free[MEMORY_TWO_TRACES_COMBINED], 1);
    assert_eq!(free[MEMORY_ALL_TRACES_COMBINED], 1);
    // in a field of degree one the rows are rows of the base field
    let as_ext = |r: &Vec<u64>| r.iter().map(|x| vec![*x]).collect::<Vec<_>>();
    let vars = StarkEvaluationVars {
        local_values: as_ext(&free),
        next_values: as_ext(&row),
        public_inputs: vec![],
    };
    assert_eq!(memory_constraint_value(&ctx, &vars, 9), vec![0]);
    assert_eq!(memory_constraint_value(&ctx, &vars, 10), vec![0]);
    assert_eq!(memory_constraint_value(&ctx, &vars, 12), vec![0]);
}
