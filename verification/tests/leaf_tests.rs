use bbm_ledger::{Address, Bytes, IndexKey, Leaf, LeafParser};

#[test]
fn test_leaf_parser() {
    let leaf = Leaf {
        version: 1,
        owner: Address::from_slice(&[1u8; 20]).unwrap(),
        index_key: IndexKey::from_slice(&[2u8; 32]).unwrap(),
        operator: None,
        data: Bytes::from_slice(&[3u8; 32]),
    };

    let mut bytes = Vec::new();
    leaf.append_to_vec(&mut bytes).unwrap();
    let parsed = LeafParser::new(bytes).unwrap();
    assert_eq!(leaf, parsed.to_leaf().unwrap());
}

#[test]
fn test_leaf_parser_accessors() {
    let leaf = Leaf {
        version: 7,
        owner: Address::from_slice(&[9u8; 20]).unwrap(),
        index_key: IndexKey::from_slice(&[8u8; 32]).unwrap(),
        operator: None,
        data: Bytes(vec![1, 2, 3, 4, 5]),
    };
    let mut bytes = Vec::new();
    leaf.append_to_vec(&mut bytes).unwrap();
    let parsed = LeafParser::new(bytes).unwrap();
    assert_eq!(parsed.version(), 7);
    assert_eq!(parsed.data_len(), 5);
    assert_eq!(parsed.leaf_len(), 93 + 5);
    assert_eq!(parsed.owner(), &[9u8; 20]);
    assert_eq!(parsed.index(), &[8u8; 32]);
    assert_eq!(parsed.operator(), &[0u8; 36]);
    assert_eq!(parsed.data(), &[1, 2, 3, 4, 5]);
}

#[test]
fn test_leaf_parser_setters() {
    let leaf = Leaf {
        version: 1,
        owner: Address::from_slice(&[1u8; 20]).unwrap(),
        index_key: IndexKey::from_slice(&[2u8; 32]).unwrap(),
        operator: None,
        data: Bytes(vec![0, 0, 0]),
    };
    let mut bytes = Vec::new();
    leaf.append_to_vec(&mut bytes).unwrap();
    let mut parsed = LeafParser::new(bytes).unwrap();
    parsed.set_version(9);
    parsed.set_owner(&Address::from_slice(&[5u8; 20]).unwrap());
    parsed.set_index(&IndexKey::from_slice(&[6u8; 32]).unwrap());
    parsed.write_data(1, &[42, 43]);
    let back = parsed.to_leaf().unwrap();
    assert_eq!(back.version, 9);
    assert_eq!(back.owner, Address::from_slice(&[5u8; 20]).unwrap());
    assert_eq!(back.index_key, IndexKey::from_slice(&[6u8; 32]).unwrap());
    assert_eq!(back.data, Bytes(vec![0, 42, 43]));
}

#[test]
fn test_leaf_too_short_rejected() {
    match LeafParser::new(vec![0u8; 10]) {
        Err(bbm_ledger::Error::WrongLengthForLeaf(actual, expected)) => {
            assert_eq!(actual, 10);
            assert_eq!(expected, 93);
        }
        _ => panic!("a short buffer must be rejected"),
    }
}

#[test]
fn test_leaf_truncated_data_rejected() {
    // A header announcing 5 data bytes over a buffer holding only 2.
    let leaf = Leaf {
        version: 1,
        owner: Address::from_slice(&[1u8; 20]).unwrap(),
        index_key: IndexKey::from_slice(&[2u8; 32]).unwrap(),
        operator: None,
        data: Bytes(vec![1, 2, 3, 4, 5]),
    };
    let mut bytes = Vec::new();
    leaf.append_to_vec(&mut bytes).unwrap();
    bytes.truncate(95);
    match LeafParser::new(bytes) {
        Err(bbm_ledger::Error::WrongLengthForLeaf(actual, expected)) => {
            assert_eq!(actual, 95);
            assert_eq!(expected, 98);
        }
        _ => panic!("truncated data must be rejected"),
    }
}
