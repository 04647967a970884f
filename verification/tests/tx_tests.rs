use bbm_ledger::{Address, Bytes, IndexKey, Leaf, LeafId, Transaction, Txid, UnsignedTransaction};

#[test]
fn tx_test_transaction_serialization_deserialization() {
    let tx1 = Transaction {
        unsigned: UnsignedTransaction {
            version: 1,
            nonce: 12345,
            inputs: vec![
                LeafId { txid: Txid::from_slice(&[1u8; 32]).unwrap(), index: 0 },
                LeafId { txid: Txid::from_slice(&[2u8; 32]).unwrap(), index: 1 },
            ],
            outputs: vec![Leaf {
                version: 1,
                owner: Address::from_slice(&[3u8; 20]).unwrap(),
                index_key: IndexKey::from_slice(&[4u8; 32]).unwrap(),
                operator: Some(LeafId {
                    txid: Txid::from_slice(&[5u8; 32]).unwrap(),
                    index: 2,
                }),
                data: Bytes(vec![60, 70, 80, 90]),
            }],
        },
        unlockers: vec![Bytes(vec![10, 20, 30]), Bytes(vec![40, 50])],
    };

    let serialized = tx1.to_vec().expect("Failed to serialize");
    let tx2 = Transaction::from_slice(&serialized).expect("Failed to deserialize");
    assert_eq!(
        tx1, tx2,
        "Transaction should be equal after serialization and deserialization"
    );
}

#[test]
fn test_transaction_empty_unlockers() {
    let tx1 = Transaction {
        unsigned: UnsignedTransaction { version: 2, nonce: 999, inputs: vec![], outputs: vec![] },
        unlockers: vec![],
    };

    let serialized = tx1.to_vec().expect("Failed to serialize");
    let tx2 = Transaction::from_slice(&serialized).expect("Failed to deserialize");
    assert_eq!(
        tx1, tx2,
        "Transaction with empty unlockers should be equal after serialization and deserialization"
    );
}

#[test]
fn test_transaction_single_unlocker() {
    let tx1 = Transaction {
        unsigned: UnsignedTransaction {
            version: 1,
            nonce: 5000,
            inputs: vec![LeafId { txid: Txid::from_slice(&[7u8; 32]).unwrap(), index: 3 }],
            outputs: vec![Leaf {
                version: 1,
                owner: Address::from_slice(&[8u8; 20]).unwrap(),
                index_key: IndexKey::from_slice(&[9u8; 32]).unwrap(),
                operator: None,
                data: Bytes(vec![100, 101, 102, 103]),
            }],
        },
        unlockers: vec![Bytes(vec![200, 201, 202, 203, 204])],
    };

    let serialized = tx1.to_vec().expect("Failed to serialize");
    let tx2 = Transaction::from_slice(&serialized).expect("Failed to deserialize");
    assert_eq!(
        tx1, tx2,
        "Transaction with single unlocker should be equal after serialization and deserialization"
    );
}

#[test]
fn test_transaction_multiple_unlockers() {
    let tx1 = Transaction {
        unsigned: UnsignedTransaction {
            version: 3,
            nonce: 99999,
            inputs: vec![
                LeafId { txid: Txid::from_slice(&[11u8; 32]).unwrap(), index: 5 },
                LeafId { txid: Txid::from_slice(&[12u8; 32]).unwrap(), index: 6 },
                LeafId { txid: Txid::from_slice(&[13u8; 32]).unwrap(), index: 7 },
            ],
            outputs: vec![
                Leaf {
                    version: 1,
                    owner: Address::from_slice(&[14u8; 20]).unwrap(),
                    index_key: IndexKey::from_slice(&[15u8; 32]).unwrap(),
                    operator: Some(LeafId {
                        txid: Txid::from_slice(&[16u8; 32]).unwrap(),
                        index: 8,
                    }),
                    data: Bytes(vec![1, 2, 3]),
                },
                Leaf {
                    version: 2,
                    owner: Address::from_slice(&[17u8; 20]).unwrap(),
                    index_key: IndexKey::from_slice(&[18u8; 32]).unwrap(),
                    operator: None,
                    data: Bytes(vec![4, 5]),
                },
            ],
        },
        unlockers: vec![
            Bytes(vec![255]),
            Bytes(vec![254, 253, 252]),
            Bytes(vec![251, 250, 249, 248, 247, 246]),
        ],
    };

    let serialized = tx1.to_vec().expect("Failed to serialize");
    let tx2 = Transaction::from_slice(&serialized).expect("Failed to deserialize");
    assert_eq!(
        tx1, tx2,
        "Transaction with multiple unlockers should be equal after serialization and deserialization"
    );
}

#[test]
fn test_transaction_large_unlocker() {
    let large_data = vec![42u8; 1000];
    let tx1 = Transaction {
        unsigned: UnsignedTransaction {
            version: 1,
            nonce: 777,
            inputs: vec![LeafId { txid: Txid::from_slice(&[20u8; 32]).unwrap(), index: 10 }],
            outputs: vec![Leaf {
                version: 1,
                owner: Address::from_slice(&[21u8; 20]).unwrap(),
                index_key: IndexKey::from_slice(&[22u8; 32]).unwrap(),
                operator: Some(LeafId {
                    txid: Txid::from_slice(&[23u8; 32]).unwrap(),
                    index: 11,
                }),
                data: Bytes(vec![1, 2, 3, 4, 5]),
            }],
        },
        unlockers: vec![Bytes(large_data.clone())],
    };

    let serialized = tx1.to_vec().expect("Failed to serialize");
    let tx2 = Transaction::from_slice(&serialized).expect("Failed to deserialize");
    assert_eq!(
        tx1, tx2,
        "Transaction with large unlocker should be equal after serialization and deserialization"
    );
    assert_eq!(tx2.unlockers[0].0.len(), 1000, "Unlocker size should be preserved");
}

#[test]
fn test_transaction_empty_unlocker_bytes() {
    let tx1 = Transaction {
        unsigned: UnsignedTransaction {
            version: 1,
            nonce: 111,
            inputs: vec![LeafId { txid: Txid::from_slice(&[25u8; 32]).unwrap(), index: 0 }],
            outputs: vec![Leaf {
                version: 1,
                owner: Address::from_slice(&[26u8; 20]).unwrap(),
                index_key: IndexKey::from_slice(&[27u8; 32]).unwrap(),
                operator: None,
                data: Bytes(vec![99]),
            }],
        },
        unlockers: vec![Bytes(vec![]), Bytes(vec![1]), Bytes(vec![])],
    };

    let serialized = tx1.to_vec().expect("Failed to serialize");
    let tx2 = Transaction::from_slice(&serialized).expect("Failed to deserialize");
    assert_eq!(
        tx1, tx2,
        "Transaction with empty byte unlockers should be equal after serialization and deserialization"
    );
}

#[test]
fn test_transaction_serialization_format() {
    let tx = Transaction {
        unsigned: UnsignedTransaction { version: 1, nonce: 100, inputs: vec![], outputs: vec![] },
        unlockers: vec![Bytes(vec![1, 2, 3]), Bytes(vec![4, 5])],
    };

    let serialized = tx.to_vec().expect("Failed to serialize");

    let unlocker_count_bytes = &serialized[serialized.len() - 4..];
    let unlocker_count = u32::from_be_bytes(unlocker_count_bytes.try_into().unwrap());
    assert_eq!(unlocker_count, 2, "Unlocker count should be stored at the end");

    let tx2 = Transaction::from_slice(&serialized).expect("Failed to deserialize");
    assert_eq!(
        tx.unlockers.len(),
        tx2.unlockers.len(),
        "Unlocker count should match"
    );
}

#[test]
fn test_transaction_roundtrip_consistency() {
    let tx1 = Transaction {
        unsigned: UnsignedTransaction {
            version: 5,
            nonce: 54321,
            inputs: vec![LeafId { txid: Txid::from_slice(&[30u8; 32]).unwrap(), index: 15 }],
            outputs: vec![Leaf {
                version: 3,
                owner: Address::from_slice(&[31u8; 20]).unwrap(),
                index_key: IndexKey::from_slice(&[32u8; 32]).unwrap(),
                operator: Some(LeafId {
                    txid: Txid::from_slice(&[33u8; 32]).unwrap(),
                    index: 16,
                }),
                data: Bytes(vec![77, 88, 99]),
            }],
        },
        unlockers: vec![Bytes(vec![111, 222, 77])],
    };

    let serialized1 = tx1.to_vec().expect("Failed to serialize first time");
    let tx2 = Transaction::from_slice(&serialized1).expect("Failed to deserialize first time");

    let serialized2 = tx2.to_vec().expect("Failed to serialize second time");
    let tx3 = Transaction::from_slice(&serialized2).expect("Failed to deserialize second time");

    assert_eq!(tx1, tx2, "First roundtrip should preserve equality");
    assert_eq!(tx2, tx3, "Second roundtrip should preserve equality");
    assert_eq!(serialized1, serialized2, "Serialized bytes should be identical");
}
