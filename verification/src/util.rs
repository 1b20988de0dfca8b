//! Reshaping of row and column data.

use crate::bits::{
    lemma_reverse_bits_bound, lemma_reverse_unreverse, lemma_unreverse_bits_bound,
    lemma_unreverse_reverse, log2_strict, reverse_bits, spec_log2, spec_reverse_bits,
    spec_unreverse_bits,
};
use std::collections::HashMap;
use vstd::arithmetic::power2::{is_pow2, pow2};
use vstd::std_specs::iter::IteratorSpec;
use vstd::prelude::*;

verus! {

broadcast use vstd::std_specs::hash::group_hash_axioms;

/// Whether every row of the matrix has `width` entries.
pub open spec fn rectangular(matrix: Seq<Vec<u64>>, width: nat) -> bool {
    forall|j: int| 0 <= j < matrix.len() ==> (#[trigger] matrix[j]).len() == width
}

/// The matrix with rows and columns exchanged.
pub fn transpose(matrix: &Vec<Vec<u64>>) -> (r: Vec<Vec<u64>>)
    requires
        matrix.len() >= 1,
        rectangular(matrix@, matrix[0].len() as nat),
    ensures
        r.len() == matrix[0].len(),
        rectangular(r@, matrix.len() as nat),
        forall|i: int, j: int|
            0 <= i < r.len() && 0 <= j < matrix.len() ==> #[trigger] r[i][j] == matrix[j][i],
{
    let width = matrix[0].len();
    let height = matrix.len();
    let mut out: Vec<Vec<u64>> = Vec::new();
    let mut i: usize = 0;
    while i < width
        invariant
            i <= width,
            height == matrix.len(),
            rectangular(matrix@, width as nat),
            out.len() == i,
            rectangular(out@, height as nat),
            forall|a: int, b: int|
                0 <= a < i && 0 <= b < height ==> #[trigger] out[a][b] == matrix[b][a],
        decreases width - i,
    {
        let mut row: Vec<u64> = Vec::new();
        let mut j: usize = 0;
        while j < height
            invariant
                j <= height,
                i < width,
                height == matrix.len(),
                rectangular(matrix@, width as nat),
                row.len() == j,
                forall|b: int| 0 <= b < j ==> row[b] == matrix[b][i as int],
            decreases height - j,
        {
            assert(matrix[j as int].len() == width);
            row.push(matrix[j][i]);
            j = j + 1;
        }
        out.push(row);
        i = i + 1;
    }
    out
}

/// The matrix with rows and columns exchanged, where every row has `width`
/// entries; a matrix without rows gives `width` empty rows.
pub fn transpose_or_empty(matrix: &Vec<Vec<u64>>, width: usize) -> (r: Vec<Vec<u64>>)
    requires
        rectangular(matrix@, width as nat),
    ensures
        r.len() == width,
        rectangular(r@, matrix.len() as nat),
        forall|i: int, j: int|
            0 <= i < r.len() && 0 <= j < matrix.len() ==> #[trigger] r[i][j] == matrix[j][i],
{
    if matrix.len() == 0 {
        let mut out: Vec<Vec<u64>> = Vec::new();
        let mut i: usize = 0;
        while i < width
            invariant
                i <= width,
                out.len() == i,
                rectangular(out@, 0),
            decreases width - i,
        {
            out.push(Vec::new());
            i = i + 1;
        }
        out
    } else {
        assert(matrix[0].len() == width);
        transpose(matrix)
    }
}

/// The rows in bit-reversed order: row `i` moves to the position whose
/// binary form is that of `i` read backwards.
pub fn reverse_index_bits(rows: &Vec<Vec<u64>>) -> (r: Vec<Vec<u64>>)
    requires
        is_pow2(rows.len() as int),
    ensures
        r.len() == rows.len(),
        forall|i: nat|
            i < rows.len() ==> (#[trigger] r[spec_reverse_bits(
                i,
                spec_log2(rows.len() as int),
            ) as int])@ == rows[i as int]@,
        forall|t: nat|
            t < rows.len() ==> (#[trigger] r[t as int])@ == rows[spec_unreverse_bits(
                t,
                spec_log2(rows.len() as int),
            ) as int]@,
{
    let n = rows.len();
    let bits = log2_strict(n);
    let mut out: Vec<Vec<u64>> = Vec::new();
    let mut k: usize = 0;
    while k < n
        invariant
            k <= n,
            out.len() == k,
        decreases n - k,
    {
        out.push(Vec::new());
        k = k + 1;
    }
    let mut i: usize = 0;
    while i < n
        invariant
            i <= n,
            n == rows.len(),
            n == pow2(bits as nat),
            bits == spec_log2(n as int),
            out.len() == n,
            forall|a: nat|
                a < i ==> (#[trigger] out[spec_reverse_bits(a, bits as nat) as int])@
                    == rows[a as int]@,
        decreases n - i,
    {
        let target = reverse_bits(i, bits);
        let row = rows[i].clone();
        let ghost before = out@;
        out[target] = row;
        proof {
            assert forall|a: nat| a < i + 1 implies (#[trigger] out[spec_reverse_bits(
                a,
                bits as nat,
            ) as int])@ == rows[a as int]@ by {
                lemma_reverse_bits_bound(a, bits as nat);
                if a < i {
                    lemma_unreverse_reverse(a, bits as nat);
                    lemma_unreverse_reverse(i as nat, bits as nat);
                    assert(spec_reverse_bits(a, bits as nat) != target);
                    assert(before[spec_reverse_bits(a, bits as nat) as int]@ == rows[a as int]@);
                }
            }
        }
        i = i + 1;
    }
    proof {
        assert forall|t: nat| t < n implies (#[trigger] out[t as int])@ == rows[spec_unreverse_bits(
            t,
            bits as nat,
        ) as int]@ by {
            lemma_unreverse_bits_bound(t, bits as nat);
            lemma_reverse_unreverse(t, bits as nat);
            let a = spec_unreverse_bits(t, bits as nat);
            assert(out[spec_reverse_bits(a, bits as nat) as int]@ == rows[a as int]@);
        }
    }
    out
}

/// The number of times that `v` occurs in `s`.
pub open spec fn occurrences(s: Seq<u64>, v: u64) -> nat
    decreases s.len(),
{
    if s.len() == 0 {
        0
    } else {
        occurrences(s.drop_last(), v) + (if s.last() == v {
            1nat
        } else {
            0nat
        })
    }
}

/// Whether the map counts the occurrences of every value of `s`, and
/// holds no other value.
pub open spec fn is_bag_of(counts: Map<u64, usize>, s: Seq<u64>) -> bool {
    forall|v: u64|
        (#[trigger] counts.contains_key(v) <==> occurrences(s, v) > 0) && (counts.contains_key(v)
            ==> counts[v] == occurrences(s, v))
}

/// Whether equal values stand together: between two equal entries there
/// is none that differs from them.
pub open spec fn grouped(s: Seq<u64>) -> bool {
    forall|i: int, j: int, k: int|
        0 <= i <= j <= k < s.len() && s[i] == s[k] ==> #[trigger] s[j] == #[trigger] s[i]
            && #[trigger] s[k] == s[i]
}

/// Whether `key` is the key of one of the entries.
pub open spec fn has_key(entries: Seq<(u64, usize)>, key: u64) -> bool {
    exists|t: int| 0 <= t < entries.len() && (#[trigger] entries[t]).0 == key
}

/// Whether no two entries have the same key.
pub open spec fn distinct_keys(entries: Seq<(u64, usize)>) -> bool {
    forall|a: int, b: int|
        0 <= a < b < entries.len() ==> (#[trigger] entries[a]).0 != (#[trigger] entries[b]).0
}

/// Each key as many times as its entry says, entry after entry.
pub open spec fn expand(entries: Seq<(u64, usize)>) -> Seq<u64>
    decreases entries.len(),
{
    if entries.len() == 0 {
        Seq::empty()
    } else {
        expand(entries.drop_last()) + Seq::new(
            entries.last().1 as nat,
            |i: int| entries.last().0,
        )
    }
}

/// A value occurs in a sequence no more often than the sequence is long.
pub proof fn lemma_occurrences_bound(s: Seq<u64>, v: u64)
    ensures
        occurrences(s, v) <= s.len(),
    decreases s.len(),
{
    if s.len() > 0 {
        lemma_occurrences_bound(s.drop_last(), v);
    }
}

/// Occurrences add up over concatenation.
pub proof fn lemma_occurrences_concat(a: Seq<u64>, b: Seq<u64>, v: u64)
    ensures
        occurrences(a + b, v) == occurrences(a, v) + occurrences(b, v),
    decreases b.len(),
{
    if b.len() == 0 {
        assert(a + b =~= a);
    } else {
        assert((a + b).drop_last() =~= a + b.drop_last());
        lemma_occurrences_concat(a, b.drop_last(), v);
    }
}

/// A block of `count` copies of `key` holds `key` that often, and no other value.
pub proof fn lemma_occurrences_block(key: u64, count: nat, v: u64)
    ensures
        occurrences(Seq::new(count, |i: int| key), v) == (if v == key {
            count
        } else {
            0
        }),
    decreases count,
{
    let block = Seq::new(count, |i: int| key);
    if count > 0 {
        assert(block.drop_last() =~= Seq::new((count - 1) as nat, |i: int| key));
        lemma_occurrences_block(key, (count - 1) as nat, v);
    }
}

/// Every entry of an expansion is the key of an entry expanded.
pub proof fn lemma_expand_members(entries: Seq<(u64, usize)>, idx: int)
    requires
        0 <= idx < expand(entries).len(),
    ensures
        has_key(entries, expand(entries)[idx]),
    decreases entries.len(),
{
    if entries.len() > 0 {
        let rest = entries.drop_last();
        if idx < expand(rest).len() {
            lemma_expand_members(rest, idx);
            let t = choose|t: int| 0 <= t < rest.len() && (#[trigger] rest[t]).0 == expand(rest)[idx];
            assert(entries[t] == rest[t]);
        } else {
            assert(entries[entries.len() - 1].0 == expand(entries)[idx]);
        }
    }
}

/// With distinct keys, an expansion holds each key as often as its entry
/// says, and nothing else.
pub proof fn lemma_expand_occurrences(entries: Seq<(u64, usize)>, t: int)
    requires
        distinct_keys(entries),
        0 <= t < entries.len(),
    ensures
        occurrences(expand(entries), entries[t].0) == entries[t].1,
    decreases entries.len(),
{
    let rest = entries.drop_last();
    let last = entries.last();
    let v = entries[t].0;
    lemma_occurrences_concat(expand(rest), Seq::new(last.1 as nat, |i: int| last.0), v);
    lemma_occurrences_block(last.0, last.1 as nat, v);
    if t < rest.len() {
        assert(rest[t] == entries[t]);
        assert(entries[entries.len() - 1] == last);
        lemma_expand_occurrences(rest, t);
    } else {
        lemma_expand_absent(rest, v);
    }
}

/// A value that is no key of the entries does not occur in their expansion.
pub proof fn lemma_expand_absent(entries: Seq<(u64, usize)>, v: u64)
    requires
        !has_key(entries, v),
    ensures
        occurrences(expand(entries), v) == 0,
    decreases entries.len(),
{
    if entries.len() > 0 {
        let rest = entries.drop_last();
        let last = entries.last();
        assert(entries[entries.len() - 1] == last);
        assert(!has_key(rest, v)) by {
            if has_key(rest, v) {
                let t = choose|t: int| 0 <= t < rest.len() && (#[trigger] rest[t]).0 == v;
                assert(entries[t] == rest[t]);
            }
        }
        lemma_expand_absent(rest, v);
        lemma_occurrences_concat(expand(rest), Seq::new(last.1 as nat, |i: int| last.0), v);
        lemma_occurrences_block(last.0, last.1 as nat, v);
    }
}

/// With distinct keys, equal values stand together in an expansion.
pub proof fn lemma_expand_grouped(entries: Seq<(u64, usize)>)
    requires
        distinct_keys(entries),
    ensures
        grouped(expand(entries)),
    decreases entries.len(),
{
    if entries.len() > 0 {
        let rest = entries.drop_last();
        let last = entries.last();
        let s = expand(entries);
        let head = expand(rest);
        assert(distinct_keys(rest)) by {
            assert forall|a: int, b: int| 0 <= a < b < rest.len() implies (#[trigger] rest[a]).0
                != (#[trigger] rest[b]).0 by {
                assert(entries[a] == rest[a] && entries[b] == rest[b]);
            }
        }
        lemma_expand_grouped(rest);
        assert forall|i: int, j: int, k: int|
            0 <= i <= j <= k < s.len() && s[i] == s[k] implies #[trigger] s[j] == #[trigger] s[i]
            && #[trigger] s[k] == s[i] by {
            if k < head.len() {
                assert(head[i] == s[i] && head[j] == s[j] && head[k] == s[k]);
            } else if i < head.len() {
                // s[k] is the last key, which no earlier entry has
                lemma_expand_members(rest, i);
                let t = choose|t: int| 0 <= t < rest.len() && (#[trigger] rest[t]).0 == head[i];
                assert(entries[t] == rest[t]);
                assert(entries[entries.len() - 1] == last);
                assert(false);
            }
        }
    }
}

/// Converts a vector to a "hash bag": a map from each value to the number
/// of times it occurs.
pub fn create_hash_bag(values: &Vec<u64>) -> (counts: HashMap<u64, usize>)
    ensures
        is_bag_of(counts@, values@),
{
    let mut counts: HashMap<u64, usize> = HashMap::new();
    let mut i: usize = 0;
    proof {
        assert(values@.take(0).len() == 0);
    }
    while i < values.len()
        invariant
            i <= values.len(),
            is_bag_of(counts@, values@.take(i as int)),
        decreases values.len() - i,
    {
        let v = values[i];
        let ghost before = counts@;
        let ghost seen = values@.take(i as int);
        proof {
            lemma_occurrences_bound(seen, v);
            assert(values@.take(i + 1).drop_last() =~= seen);
        }
        let next = match counts.get(&v) {
            Some(c) => *c + 1,
            None => 1,
        };
        counts.insert(v, next);
        proof {
            assert forall|u: u64|
                (#[trigger] counts@.contains_key(u) <==> occurrences(values@.take(i + 1), u) > 0)
                && (counts@.contains_key(u) ==> counts@[u] == occurrences(
                values@.take(i + 1),
                u,
            )) by {
                assert(before.contains_key(u) <==> occurrences(seen, u) > 0);
            }
        }
        i = i + 1;
    }
    proof {
        assert(values@.take(i as int) == values@);
    }
    counts
}

/// The entries of a hash bag, in the order in which the map hands them out.
fn hash_bag_entries(count_map: &HashMap<u64, usize>) -> (entries: Vec<(u64, usize)>)
    ensures
        distinct_keys(entries@),
        forall|t: int|
            0 <= t < entries.len() ==> count_map@.contains_key((#[trigger] entries[t]).0)
                && count_map@[entries[t].0] == entries[t].1,
        forall|k: u64| count_map@.contains_key(k) ==> has_key(entries@, k),
{
    let mut entries: Vec<(u64, usize)> = Vec::new();
    proof {
        vstd::std_specs::hash::axiom_spec_hash_map_iter(count_map);
    }
    for entry in it: count_map.iter()
        invariant
            entries.len() == it.index(),
            forall|t: int|
                0 <= t < entries.len() ==> (#[trigger] entries[t]) == (*it.seq()[t].0, *it.seq()[t].1),
    {
        entries.push((*entry.0, *entry.1));
    }
    proof {
        let seq = vstd::std_specs::hash::spec_hash_map_iter(count_map).remaining();
        assert forall|a: int, b: int| 0 <= a < b < entries.len() implies (#[trigger] entries[a]).0
            != (#[trigger] entries[b]).0 by {
            if entries[a].0 == entries[b].0 {
                assert(count_map@[*seq[a].0] == *seq[a].1);
                assert(count_map@[*seq[b].0] == *seq[b].1);
                assert(seq[a] == seq[b]);
            }
        }
        assert forall|t: int| 0 <= t < entries.len() implies count_map@.contains_key(
            (#[trigger] entries[t]).0,
        ) && count_map@[entries[t].0] == entries[t].1 by {
            assert(count_map@.contains_key(*seq[t].0));
            assert(count_map@[*seq[t].0] == *seq[t].1);
        }
        assert forall|k: u64| count_map@.contains_key(k) implies has_key(entries@, k) by {
            assert(seq.contains((&k, &count_map@[k])));
            let t = choose|t: int| 0 <= t < seq.len() && seq[t] == (&k, &count_map@[k]);
            assert(entries[t].0 == k);
        }
    }
    entries
}

/// Converts a "hash bag" to a flat vector of values.
///
/// The order of the values is that in which the map hands out its
/// entries, and so is not determined by the map. Whatever it is, every
/// value occurs as often as the map says, and multiple instances of the
/// same value are grouped together.
pub fn flatten_hash_bag(count_map: &HashMap<u64, usize>) -> (r: Vec<u64>)
    ensures
        forall|v: u64|
            #[trigger] occurrences(r@, v) == (if count_map@.contains_key(v) {
                count_map@[v] as nat
            } else {
                0
            }),
        grouped(r@),
{
    let entries = hash_bag_entries(count_map);
    let mut r: Vec<u64> = Vec::new();
    let mut t: usize = 0;
    proof {
        assert(entries@.take(0).len() == 0);
    }
    while t < entries.len()
        invariant
            t <= entries.len(),
            r@ == expand(entries@.take(t as int)),
        decreases entries.len() - t,
    {
        let (val, count) = entries[t];
        let ghost before = r@;
        let mut c: usize = 0;
        while c < count
            invariant
                c <= count,
                r@ == before + Seq::new(c as nat, |i: int| val),
            decreases count - c,
        {
            r.push(val);
            c = c + 1;
            proof {
                assert(r@ =~= before + Seq::new(c as nat, |i: int| val));
            }
        }
        proof {
            assert(entries@.take(t + 1).drop_last() =~= entries@.take(t as int));
        }
        t = t + 1;
    }
    proof {
        assert(entries@.take(t as int) == entries@);
        lemma_expand_grouped(entries@);
        assert forall|v: u64| #[trigger]
            occurrences(r@, v) == (if count_map@.contains_key(v) {
                count_map@[v] as nat
            } else {
                0
            }) by {
            if has_key(entries@, v) {
                let i = choose|i: int| 0 <= i < entries.len() && (#[trigger] entries[i]).0 == v;
                lemma_expand_occurrences(entries@, i);
            } else {
                lemma_expand_absent(entries@, v);
            }
        }
    }
    r
}

} // verus!
