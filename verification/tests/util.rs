use fri_oracle::bits::{log2_strict, pow2_usize, reverse_bits};
use fri_oracle::field::FieldContext;
use fri_oracle::util::{create_hash_bag, flatten_hash_bag, reverse_index_bits, transpose};
use rand::{thread_rng, Rng};
use std::cmp::Ordering;
use std::collections::HashMap;

#[test]
fn test_bag() {
    let field = FieldContext::goldilocks(2);
    let mut rng = thread_rng();
    let n = 1 << 20;
    let t: Vec<u64> = (0..n).map(|_| field.rand()).collect();
    let v: Vec<u64> = (0..n).map(|_| t[rng.gen_range(0..n)]).collect();

    let now = std::time::Instant::now();
    let bags = create_hash_bag(&v);
    let permuted_inputs = flatten_hash_bag(&bags);
    let mut unused_table_vals = t.iter().filter(|v| !bags.contains_key(v)).copied();
    let mut permuted_table = Vec::with_capacity(n);
    permuted_table.push(permuted_inputs[0]);
    for i in 1..n {
        let is_repeat = permuted_inputs[i] == permuted_inputs[i - 1];
        permuted_table.push(if is_repeat {
            unused_table_vals
                .next()
                .expect("No more unused table values; this should never happen")
        } else {
            permuted_inputs[i]
        });
    }
    println!("{}", now.elapsed().as_secs_f64());

    let to_multiset = |l: &[_]| {
        l.iter()
            .fold(HashMap::new(), |mut acc: HashMap<_, usize>, &x| {
                *acc.entry(x).or_default() += 1;
                acc
            })
    };
    assert_eq!(to_multiset(&permuted_table), to_multiset(&t));
    assert_eq!(permuted_inputs[0], permuted_table[0]);
    for i in 1..n {
        if permuted_inputs[i] != permuted_inputs[i - 1] {
            assert_eq!(permuted_inputs[i], permuted_table[i]);
        }
    }
}

#[test]
fn test_sorting() {
    let field = FieldContext::goldilocks(2);
    let mut rng = thread_rng();
    let n = 1 << 20;
    let mut t: Vec<u64> = (0..n).map(|_| field.rand()).collect();
    let v: Vec<u64> = (0..n).map(|_| t[rng.gen_range(0..n)]).collect();

    t.sort_unstable();
    let now = std::time::Instant::now();
    let mut permuted_inputs = v.clone();
    permuted_inputs.sort_unstable();
    println!("{}", now.elapsed().as_secs_f64());
    let mut unused_table_inds = Vec::with_capacity(n);
    let mut unused_table_vals = Vec::with_capacity(n);
    let mut permuted_table = vec![0u64; n];
    let mut i = 0;
    let mut j = 0;
    while (j < n) && (i < n) {
        match permuted_inputs[i].cmp(&t[j]) {
            Ordering::Greater => {
                unused_table_vals.push(t[j]);
                j += 1;
            }
            Ordering::Less => {
                if let Some(x) = unused_table_vals.pop() {
                    permuted_table[i] = x;
                } else {
                    unused_table_inds.push(i);
                }
                i += 1;
            }
            Ordering::Equal => {
                permuted_table[i] = t[j];
                i += 1;
                j += 1;
            }
        }
    }
    for jj in j..n {
        unused_table_vals.push(t[jj]);
    }
    for ii in i..n {
        unused_table_inds.push(ii);
    }
    for (ind, val) in unused_table_inds.into_iter().zip(unused_table_vals) {
        permuted_table[ind] = val;
    }
    println!("{}", now.elapsed().as_secs_f64());
    let to_multiset = |l: &[_]| {
        l.iter()
            .fold(HashMap::new(), |mut acc: HashMap<_, usize>, &x| {
                *acc.entry(x).or_default() += 1;
                acc
            })
    };

    assert_eq!(to_multiset(&permuted_table), to_multiset(&t));
    assert_eq!(permuted_inputs[0], permuted_table[0]);
    for i in 1..n {
        if permuted_inputs[i] != permuted_inputs[i - 1] {
            assert_eq!(permuted_inputs[i], permuted_table[i]);
        }
    }
}

#[test]
fn hash_bag_counts_every_value() {
    let values = vec![7u64, 3, 7, 7, 9, 3];
    let bag = create_hash_bag(&values);
    assert_eq!(bag.len(), 3);
    assert_eq!(bag[&7], 3);
    assert_eq!(bag[&3], 2);
    assert_eq!(bag[&9], 1);
    assert!(create_hash_bag(&vec![]).is_empty());
}

#[test]
fn flattened_bag_groups_equal_values() {
    let values = vec![7u64, 3, 7, 7, 9, 3, 1, 9, 7];
    let flat = flatten_hash_bag(&create_hash_bag(&values));
    let mut sorted_flat = flat.clone();
    sorted_flat.sort_unstable();
    let mut sorted_values = values.clone();
    sorted_values.sort_unstable();
    assert_eq!(sorted_flat, sorted_values);
    let mut seen: Vec<u64> = Vec::new();
    for i in 0..flat.len() {
        if i == 0 || flat[i] != flat[i - 1] {
            assert!(!seen.contains(&flat[i]));
            seen.push(flat[i]);
        }
    }
    assert_eq!(flatten_hash_bag(&HashMap::new()), Vec::<u64>::new());
}

#[test]
fn flattening_repeats_a_value_as_often_as_counted() {
    let mut bag = HashMap::new();
    bag.insert(5u64, 3usize);
    assert_eq!(flatten_hash_bag(&bag), vec![5, 5, 5]);
    bag.insert(6u64, 0usize);
    assert_eq!(flatten_hash_bag(&bag), vec![5, 5, 5]);
}

#[test]
fn bit_reversal_reads_indices_backwards() {
    assert_eq!(reverse_bits(0b001, 3), 0b100);
    assert_eq!(reverse_bits(0b110, 3), 0b011);
    assert_eq!(reverse_bits(0b1011, 4), 0b1101);
    assert_eq!(reverse_bits(0, 0), 0);
    // bits above the width play no part
    assert_eq!(reverse_bits(0b1101, 2), 0b10);
    assert_eq!(reverse_bits(usize::MAX, 3), 0b111);
    assert_eq!(reverse_bits(5, 0), 0);
    assert_eq!(reverse_bits(1, 1), 1);
    for i in 0..64 {
        assert_eq!(reverse_bits(reverse_bits(i, 6), 6), i);
    }
}

#[test]
fn rows_move_to_their_reversed_index() {
    let rows: Vec<Vec<u64>> = (0..8u64).map(|i| vec![i, 10 * i]).collect();
    let reversed = reverse_index_bits(&rows);
    assert_eq!(
        reversed,
        vec![
            vec![0, 0],
            vec![4, 40],
            vec![2, 20],
            vec![6, 60],
            vec![1, 10],
            vec![5, 50],
            vec![3, 30],
            vec![7, 70]
        ]
    );
    for i in 0..8 {
        assert_eq!(reversed[reverse_bits(i, 3)], rows[i]);
    }
    assert_eq!(reverse_index_bits(&vec![vec![9u64]]), vec![vec![9u64]]);
}

#[test]
fn transpose_exchanges_rows_and_columns() {
    let matrix = vec![vec![1u64, 2, 3], vec![4, 5, 6]];
    assert_eq!(transpose(&matrix), vec![vec![1, 4], vec![2, 5], vec![3, 6]]);
    assert_eq!(transpose(&vec![Vec::<u64>::new()]), Vec::<Vec<u64>>::new());
}

#[test]
fn logarithms_of_powers_of_two() {
    assert_eq!(log2_strict(1), 0);
    assert_eq!(log2_strict(2), 1);
    assert_eq!(log2_strict(1024), 10);
    assert_eq!(pow2_usize(0), 1);
    assert_eq!(pow2_usize(10), 1024);
    for k in 0..20 {
        assert_eq!(log2_strict(pow2_usize(k)), k);
    }
}
