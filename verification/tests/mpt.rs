use fri_oracle::mpt::{
    all_mpt_prover_inputs, mpt_prover_inputs, parse_leaf, GenerationInputs, LeafParser, Nibbles,
    PartialTrie, PartialTrieType, U256,
};

fn word(x: u64) -> U256 {
    U256 { l0: x, l1: 0, l2: 0, l3: 0 }
}

#[test]
fn words_from_integers_and_bytes() {
    assert_eq!(U256::from_u32(7), word(7));
    assert_eq!(U256::from_usize(1 << 40), word(1 << 40));
    assert_eq!(U256::from_big_endian(&vec![]), word(0));
    assert_eq!(U256::from_big_endian(&vec![1, 2]), word(0x0102));
    assert_eq!(
        U256::from_big_endian(&vec![0xAA, 1, 2, 3, 4, 5, 6, 7, 8]),
        U256 { l0: 0x0102030405060708, l1: 0xAA, l2: 0, l3: 0 }
    );
    let bytes: Vec<u8> = (1..=32).collect();
    assert_eq!(
        U256::from_big_endian(&bytes),
        U256 {
            l0: 0x191A1B1C1D1E1F20,
            l1: 0x1112131415161718,
            l2: 0x090A0B0C0D0E0F10,
            l3: 0x0102030405060708,
        }
    );
    assert_eq!(
        U256::from_big_endian(&vec![0xFF; 32]),
        U256 { l0: u64::MAX, l1: u64::MAX, l2: u64::MAX, l3: u64::MAX }
    );
}

#[test]
fn kinds_of_nodes_have_their_numbers() {
    let nibbles = Nibbles { count: 0, packed: word(0) };
    assert_eq!(PartialTrieType::of(&PartialTrie::Empty).code(), 0);
    assert_eq!(PartialTrieType::of(&PartialTrie::Hash(word(1))).code(), 1);
    assert_eq!(
        PartialTrieType::of(&PartialTrie::Branch { children: vec![], value: vec![] }).code(),
        2
    );
    assert_eq!(
        PartialTrieType::of(&PartialTrie::Extension {
            nibbles,
            child: Box::new(PartialTrie::Empty)
        })
        .code(),
        3
    );
    assert_eq!(PartialTrieType::of(&PartialTrie::Leaf { nibbles, value: vec![] }).code(), 4);
}

#[test]
fn a_trie_is_written_root_first() {
    let leaf = PartialTrie::Leaf {
        nibbles: Nibbles { count: 3, packed: word(0xABC) },
        value: vec![0x12, 0x34],
    };
    let extension = PartialTrie::Extension {
        nibbles: Nibbles { count: 2, packed: word(0x5E) },
        child: Box::new(PartialTrie::Hash(U256 { l0: 1, l1: 2, l2: 3, l3: 4 })),
    };
    let mut children = vec![leaf, PartialTrie::Empty, extension];
    for _ in 3..16 {
        children.push(PartialTrie::Empty);
    }
    let trie = PartialTrie::Branch { children, value: vec![9] };

    let mut with_words = vec![word(77)];
    mpt_prover_inputs(&trie, &mut with_words, LeafParser::StorageWord);
    let mut expected = vec![
        word(77),
        word(2),
        // the leaf
        word(4),
        word(3),
        word(0xABC),
        word(0x1234),
        // an empty child
        word(0),
        // the extension and the hash below it
        word(3),
        word(2),
        word(0x5E),
        word(1),
        U256 { l0: 1, l1: 2, l2: 3, l3: 4 },
    ];
    expected.extend(vec![word(0); 13]);
    expected.push(word(9));
    assert_eq!(with_words, expected);

    let mut without = vec![];
    mpt_prover_inputs(&trie, &mut without, LeafParser::Ignore);
    let mut expected = vec![
        word(2),
        word(4),
        word(3),
        word(0xABC),
        word(0),
        word(3),
        word(2),
        word(0x5E),
        word(1),
        U256 { l0: 1, l1: 2, l2: 3, l3: 4 },
    ];
    expected.extend(vec![word(0); 13]);
    assert_eq!(without, expected);
}

#[test]
fn parsers() {
    assert_eq!(parse_leaf(LeafParser::Ignore, &vec![1, 2, 3]), vec![]);
    assert_eq!(parse_leaf(LeafParser::Ignore, &vec![7; 100]), vec![]);
    assert_eq!(parse_leaf(LeafParser::StorageWord, &vec![1, 0]), vec![word(256)]);
}

#[test]
fn all_tries_of_a_block() {
    let leaf = |value: Vec<u8>| PartialTrie::Leaf {
        nibbles: Nibbles { count: 1, packed: word(0xF) },
        value,
    };
    let inputs = GenerationInputs {
        state_trie: leaf(vec![1; 70]),
        transactions_trie: PartialTrie::Empty,
        receipts_trie: PartialTrie::Hash(word(5)),
        storage_tries: vec![(word(100), leaf(vec![2, 3])), (word(101), PartialTrie::Empty)],
    };
    assert_eq!(
        all_mpt_prover_inputs(&inputs),
        vec![
            // the state trie, without the value of the leaf
            word(4),
            word(1),
            word(0xF),
            // the transactions trie
            word(0),
            // the receipts trie
            word(1),
            word(5),
            // the storage tries, with their values
            word(4),
            word(1),
            word(0xF),
            word(0x0203),
            word(0),
        ]
    );
}
