//! Merkle-Patricia tries written out as the words that a prover reads.

use vstd::prelude::*;

verus! {

/// A word of 256 bits, as four limbs of 64 bits, least significant first.
#[derive(Clone, Copy, Debug, PartialEq, Eq, Structural)]
pub struct U256 {
    pub l0: u64,
    pub l1: u64,
    pub l2: u64,
    pub l3: u64,
}

/// A path through a trie: `count` nibbles, packed into one word.
#[derive(Clone, Copy, Debug, PartialEq, Eq, Structural)]
pub struct Nibbles {
    pub count: usize,
    pub packed: U256,
}

/// A trie of which only some parts are known: the others stand as hashes.
#[derive(Debug)]
pub enum PartialTrie {
    Empty,
    Hash(U256),
    Branch { children: Vec<PartialTrie>, value: Vec<u8> },
    Extension { nibbles: Nibbles, child: Box<PartialTrie> },
    Leaf { nibbles: Nibbles, value: Vec<u8> },
}

/// The kind of a node.
#[derive(Clone, Copy, Debug, PartialEq, Eq, Structural)]
pub enum PartialTrieType {
    Empty,
    Hash,
    Branch,
    Extension,
    Leaf,
}

/// How the value at a leaf is written out.
#[derive(Clone, Copy, Debug, PartialEq, Eq, Structural)]
pub enum LeafParser {
    /// Nothing is written.
    Ignore,
    /// The value is one word, given in big-endian bytes.
    StorageWord,
}

/// The tries that a block's execution starts from.
#[derive(Debug)]
pub struct GenerationInputs {
    pub state_trie: PartialTrie,
    pub transactions_trie: PartialTrie,
    pub receipts_trie: PartialTrie,
    /// The storage trie of every account, beside the account's address.
    pub storage_tries: Vec<(U256, PartialTrie)>,
}

/// Byte `k` from the end of `bytes`, zero beyond the start.
pub open spec fn byte_from_end(bytes: Seq<u8>, k: int) -> int {
    if 0 <= k < bytes.len() {
        bytes[bytes.len() - 1 - k] as int
    } else {
        0
    }
}

/// The number whose base-256 digits, least significant first, are the
/// bytes `first`, `first + 1`, ... from the end of `bytes`, `count` of them.
pub open spec fn spec_limb_from_be(bytes: Seq<u8>, first: int, count: nat) -> int
    decreases count,
{
    if count == 0 {
        0
    } else {
        byte_from_end(bytes, first) + 256 * spec_limb_from_be(
            bytes,
            first + 1,
            (count - 1) as nat,
        )
    }
}

/// The word that the big-endian `bytes` stand for.
pub open spec fn spec_from_big_endian(bytes: Seq<u8>) -> U256 {
    U256 {
        l0: spec_limb_from_be(bytes, 0, 8) as u64,
        l1: spec_limb_from_be(bytes, 8, 8) as u64,
        l2: spec_limb_from_be(bytes, 16, 8) as u64,
        l3: spec_limb_from_be(bytes, 24, 8) as u64,
    }
}

/// `count` base-256 digits stand for a number below `256^count`.
pub proof fn lemma_limb_from_be_bound(bytes: Seq<u8>, first: int, count: nat)
    ensures
        0 <= spec_limb_from_be(bytes, first, count) < vstd::arithmetic::power::pow(256, count),
    decreases count,
{
    vstd::arithmetic::power::lemma_pow0(256);
    if count > 0 {
        lemma_limb_from_be_bound(bytes, first + 1, (count - 1) as nat);
        vstd::arithmetic::power::lemma_pow_adds(256, 1, (count - 1) as nat);
        vstd::arithmetic::power::lemma_pow1(256);
    }
}

impl U256 {
    /// The word with the value `x`.
    pub fn from_usize(x: usize) -> (r: U256)
        ensures
            r == (U256 { l0: x as u64, l1: 0, l2: 0, l3: 0 }),
    {
        U256 { l0: x as u64, l1: 0, l2: 0, l3: 0 }
    }

    /// The word with the value `x`.
    pub fn from_u32(x: u32) -> (r: U256)
        ensures
            r == (U256 { l0: x as u64, l1: 0, l2: 0, l3: 0 }),
    {
        U256 { l0: x as u64, l1: 0, l2: 0, l3: 0 }
    }

    /// One limb of the word that big-endian bytes stand for.
    fn limb_from_big_endian(bytes: &Vec<u8>, first: usize) -> (r: u64)
        requires
            first <= 24,
        ensures
            r == spec_limb_from_be(bytes@, first as int, 8),
    {
        let n = bytes.len();
        let mut acc: u64 = 0;
        let mut t: usize = 8;
        proof {
            vstd::arithmetic::power::lemma_pow0(256);
        }
        while t > 0
            invariant
                t <= 8,
                first <= 24,
                n == bytes.len(),
                acc == spec_limb_from_be(bytes@, first + t, (8 - t) as nat),
            decreases t,
        {
            t = t - 1;
            let k = first + t;
            let byte: u64 = if k < n {
                bytes[n - 1 - k] as u64
            } else {
                0
            };
            proof {
                lemma_limb_from_be_bound(bytes@, first + t + 1, (7 - t) as nat);
                vstd::arithmetic::power::lemma_pow_increases(256, (7 - t) as nat, 7);
                assert(vstd::arithmetic::power::pow(256, 7) == 0x100_0000_0000_0000) by {
                    reveal_with_fuel(vstd::arithmetic::power::pow, 8);
                }
            }
            acc = byte + 256 * acc;
        }
        acc
    }

    /// The word that the big-endian `bytes` stand for.
    pub fn from_big_endian(bytes: &Vec<u8>) -> (r: U256)
        requires
            bytes.len() <= 32,
        ensures
            r == spec_from_big_endian(bytes@),
    {
        U256 {
            l0: Self::limb_from_big_endian(bytes, 0),
            l1: Self::limb_from_big_endian(bytes, 8),
            l2: Self::limb_from_big_endian(bytes, 16),
            l3: Self::limb_from_big_endian(bytes, 24),
        }
    }
}

impl PartialTrieType {
    /// The kind of `trie`.
    pub fn of(trie: &PartialTrie) -> (r: PartialTrieType)
        ensures
            r == spec_trie_type(*trie),
    {
        match trie {
            PartialTrie::Empty => PartialTrieType::Empty,
            PartialTrie::Hash(_) => PartialTrieType::Hash,
            PartialTrie::Branch { .. } => PartialTrieType::Branch,
            PartialTrie::Extension { .. } => PartialTrieType::Extension,
            PartialTrie::Leaf { .. } => PartialTrieType::Leaf,
        }
    }

    /// The number that stands for the kind.
    pub fn code(&self) -> (r: u32)
        ensures
            r == spec_type_code(*self),
    {
        match self {
            PartialTrieType::Empty => 0,
            PartialTrieType::Hash => 1,
            PartialTrieType::Branch => 2,
            PartialTrieType::Extension => 3,
            PartialTrieType::Leaf => 4,
        }
    }
}

/// The kind of `trie`.
pub open spec fn spec_trie_type(trie: PartialTrie) -> PartialTrieType {
    match trie {
        PartialTrie::Empty => PartialTrieType::Empty,
        PartialTrie::Hash(_) => PartialTrieType::Hash,
        PartialTrie::Branch { .. } => PartialTrieType::Branch,
        PartialTrie::Extension { .. } => PartialTrieType::Extension,
        PartialTrie::Leaf { .. } => PartialTrieType::Leaf,
    }
}

/// The number that stands for the kind.
pub open spec fn spec_type_code(kind: PartialTrieType) -> u32 {
    match kind {
        PartialTrieType::Empty => 0,
        PartialTrieType::Hash => 1,
        PartialTrieType::Branch => 2,
        PartialTrieType::Extension => 3,
        PartialTrieType::Leaf => 4,
    }
}

/// The word with the value `x`.
pub open spec fn spec_word(x: int) -> U256 {
    U256 { l0: x as u64, l1: 0, l2: 0, l3: 0 }
}

/// What a parser writes for a value.
pub open spec fn spec_parse_leaf(parser: LeafParser, value: Seq<u8>) -> Seq<U256> {
    match parser {
        LeafParser::Ignore => Seq::empty(),
        LeafParser::StorageWord => seq![spec_from_big_endian(value)],
    }
}

/// Whether the parser can read every value of the trie: a storage word
/// has no more than 32 bytes.
pub open spec fn values_fit(trie: PartialTrie, parser: LeafParser) -> bool
    decreases trie,
{
    parser == LeafParser::StorageWord ==> match trie {
        PartialTrie::Empty => true,
        PartialTrie::Hash(_) => true,
        PartialTrie::Branch { children, value } => value.len() <= 32 && forall|i: int|
            0 <= i < children.len() ==> values_fit(#[trigger] children[i], parser),
        PartialTrie::Extension { nibbles, child } => values_fit(*child, parser),
        PartialTrie::Leaf { nibbles, value } => value.len() <= 32,
    }
}

/// The words that stand for a trie: the kind of its root, and then what
/// the kind asks for. A hash is written as it is. A branch writes its
/// children in order and then its value. An extension writes its path and
/// then its child. A leaf writes its path and then its value. A path is
/// written as the number of its nibbles and the word that packs them.
pub open spec fn spec_mpt_inputs(trie: PartialTrie, parser: LeafParser) -> Seq<U256>
    decreases trie, 0nat,
{
    seq![spec_word(spec_type_code(spec_trie_type(trie)) as int)] + (match trie {
        PartialTrie::Empty => Seq::empty(),
        PartialTrie::Hash(h) => seq![h],
        PartialTrie::Branch { children, value } => spec_children_inputs(
            children@,
            parser,
            children.len() as nat,
        ) + spec_parse_leaf(parser, value@),
        PartialTrie::Extension { nibbles, child } => seq![
            spec_word(nibbles.count as int),
            nibbles.packed,
        ] + spec_mpt_inputs(*child, parser),
        PartialTrie::Leaf { nibbles, value } => seq![
            spec_word(nibbles.count as int),
            nibbles.packed,
        ] + spec_parse_leaf(parser, value@),
    })
}

/// The words that stand for the first `count` children, one after the other.
pub open spec fn spec_children_inputs(
    children: Seq<PartialTrie>,
    parser: LeafParser,
    count: nat,
) -> Seq<U256>
    decreases children, count,
{
    if count == 0 || count > children.len() {
        Seq::empty()
    } else {
        spec_children_inputs(children, parser, (count - 1) as nat) + spec_mpt_inputs(
            children[count - 1],
            parser,
        )
    }
}

/// The children of a branch whose values a parser can read have values
/// that it can read.
pub proof fn lemma_child_fits(trie: PartialTrie, parser: LeafParser, i: int)
    requires
        values_fit(trie, parser),
        trie is Branch,
        0 <= i < trie->children.len(),
    ensures
        values_fit(trie->children[i], parser),
{
    if parser == LeafParser::StorageWord {
        assert(values_fit(trie->children[i], parser));
    } else {
        assert(values_fit(trie->children[i], parser));
    }
}

/// What a parser writes for a value.
pub fn parse_leaf(parser: LeafParser, value: &Vec<u8>) -> (r: Vec<U256>)
    requires
        parser == LeafParser::StorageWord ==> value.len() <= 32,
    ensures
        r@ == spec_parse_leaf(parser, value@),
{
    let mut r: Vec<U256> = Vec::new();
    match parser {
        LeafParser::Ignore => {},
        LeafParser::StorageWord => {
            r.push(U256::from_big_endian(value));
        },
    }
    r
}

/// Given a trie, generate the prover input data for that trie. In essence,
/// this serializes a trie into an array of words. For example, a leaf node
/// is serialized as `(TYPE_LEAF, key, value)`, where key is a
/// `(nibbles, depth)` pair and `value` is a variable-length structure
/// which depends on which trie we are dealing with.
pub fn mpt_prover_inputs(trie: &PartialTrie, prover_inputs: &mut Vec<U256>, parser: LeafParser)
    requires
        values_fit(*trie, parser),
    ensures
        final(prover_inputs)@ == old(prover_inputs)@ + spec_mpt_inputs(*trie, parser),
    decreases trie,
{
    let ghost start = prover_inputs@;
    prover_inputs.push(U256::from_u32(PartialTrieType::of(trie).code()));
    match trie {
        PartialTrie::Empty => {
            proof {
                assert(prover_inputs@ =~= start + spec_mpt_inputs(*trie, parser));
            }
        },
        PartialTrie::Hash(h) => {
            prover_inputs.push(*h);
            proof {
                assert(prover_inputs@ =~= start + spec_mpt_inputs(*trie, parser));
            }
        },
        PartialTrie::Branch { children, value } => {
            let ghost head = prover_inputs@;
            let mut i: usize = 0;
            while i < children.len()
                invariant
                    i <= children.len(),
                    *trie == (PartialTrie::Branch { children: *children, value: *value }),
                    values_fit(*trie, parser),
                    prover_inputs@ == head + spec_children_inputs(children@, parser, i as nat),
                decreases children.len() - i,
            {
                proof {
                    lemma_child_fits(*trie, parser, i as int);
                    vstd::std_specs::vec::axiom_vec_index_decreases(*children, i as int);
                }
                mpt_prover_inputs(&children[i], prover_inputs, parser);
                proof {
                    assert(prover_inputs@ =~= head + spec_children_inputs(
                        children@,
                        parser,
                        (i + 1) as nat,
                    ));
                }
                i = i + 1;
            }
            let mut parsed = parse_leaf(parser, value);
            prover_inputs.append(&mut parsed);
            proof {
                assert(prover_inputs@ =~= start + spec_mpt_inputs(*trie, parser));
            }
        },
        PartialTrie::Extension { nibbles, child } => {
            prover_inputs.push(U256::from_usize(nibbles.count));
            prover_inputs.push(nibbles.packed);
            mpt_prover_inputs(child, prover_inputs, parser);
            proof {
                assert(prover_inputs@ =~= start + spec_mpt_inputs(*trie, parser));
            }
        },
        PartialTrie::Leaf { nibbles, value } => {
            prover_inputs.push(U256::from_usize(nibbles.count));
            prover_inputs.push(nibbles.packed);
            let mut parsed = parse_leaf(parser, value);
            prover_inputs.append(&mut parsed);
            proof {
                assert(prover_inputs@ =~= start + spec_mpt_inputs(*trie, parser));
            }
        },
    }
}

/// The words that stand for the first `count` storage tries.
pub open spec fn spec_storage_inputs(tries: Seq<(U256, PartialTrie)>, count: nat) -> Seq<U256>
    decreases count,
{
    if count == 0 {
        Seq::empty()
    } else {
        spec_storage_inputs(tries, (count - 1) as nat) + spec_mpt_inputs(
            tries[count - 1].1,
            LeafParser::StorageWord,
        )
    }
}

/// The prover input data for all tries of a block: the state trie, the
/// transactions trie and the receipts trie without the values at their
/// leaves, and then every storage trie with its values as words.
pub fn all_mpt_prover_inputs(inputs: &GenerationInputs) -> (prover_inputs: Vec<U256>)
    requires
        forall|i: int|
            0 <= i < inputs.storage_tries.len() ==> values_fit(
                (#[trigger] inputs.storage_tries[i]).1,
                LeafParser::StorageWord,
            ),
    ensures
        prover_inputs@ == spec_mpt_inputs(inputs.state_trie, LeafParser::Ignore) + spec_mpt_inputs(
            inputs.transactions_trie,
            LeafParser::Ignore,
        ) + spec_mpt_inputs(inputs.receipts_trie, LeafParser::Ignore) + spec_storage_inputs(
            inputs.storage_tries@,
            inputs.storage_tries.len() as nat,
        ),
{
    let mut prover_inputs: Vec<U256> = Vec::new();
    mpt_prover_inputs(&inputs.state_trie, &mut prover_inputs, LeafParser::Ignore);
    mpt_prover_inputs(&inputs.transactions_trie, &mut prover_inputs, LeafParser::Ignore);
    mpt_prover_inputs(&inputs.receipts_trie, &mut prover_inputs, LeafParser::Ignore);
    let ghost head = prover_inputs@;
    let mut i: usize = 0;
    while i < inputs.storage_tries.len()
        invariant
            i <= inputs.storage_tries.len(),
            forall|t: int|
                0 <= t < inputs.storage_tries.len() ==> values_fit(
                    (#[trigger] inputs.storage_tries[t]).1,
                    LeafParser::StorageWord,
                ),
            prover_inputs@ == head + spec_storage_inputs(inputs.storage_tries@, i as nat),
        decreases inputs.storage_tries.len() - i,
    {
        assert(values_fit(inputs.storage_tries[i as int].1, LeafParser::StorageWord));
        mpt_prover_inputs(&inputs.storage_tries[i].1, &mut prover_inputs, LeafParser::StorageWord);
        proof {
            assert(prover_inputs@ =~= head + spec_storage_inputs(
                inputs.storage_tries@,
                (i + 1) as nat,
            ));
        }
        i = i + 1;
    }
    proof {
        assert(head =~= spec_mpt_inputs(inputs.state_trie, LeafParser::Ignore) + spec_mpt_inputs(
            inputs.transactions_trie,
            LeafParser::Ignore,
        ) + spec_mpt_inputs(inputs.receipts_trie, LeafParser::Ignore));
    }
    prover_inputs
}

} // verus!
