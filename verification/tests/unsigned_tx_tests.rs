use bbm_ledger::{Address, Bytes, IndexKey, Leaf, LeafId, Txid, UnsignedTransaction};

#[test]
fn unsigned_tx_test_transaction_serialization_deserialization() {
    let tx1 = UnsignedTransaction {
        version: 1,
        nonce: 12345,
        inputs: vec![
            LeafId { txid: Txid::from_slice(&[1u8; 32]).unwrap(), index: 0 },
            LeafId { txid: Txid::from_slice(&[2u8; 32]).unwrap(), index: 1 },
        ],
        outputs: vec![Leaf {
            version: 1,
            owner: Address::from_slice(&[3u8; 20]).unwrap(),
            index_key: IndexKey::from_slice(&[4u8; 32]).unwrap(),
            operator: Some(LeafId { txid: Txid::from_slice(&[5u8; 32]).unwrap(), index: 2 }),
            data: Bytes(vec![60, 70, 80, 90]),
        }],
    };

    let serialized = tx1.to_vec().expect("Failed to serialize");
    let tx2 = UnsignedTransaction::from_slice(&serialized).expect("Failed to deserialize");
    assert_eq!(
        tx1, tx2,
        "Transaction should be equal after serialization and deserialization"
    );
}

#[test]
fn test_transaction_empty_inputs_outputs() {
    let tx1 = UnsignedTransaction { version: 2, nonce: 999, inputs: vec![], outputs: vec![] };

    let serialized = tx1.to_vec().expect("Failed to serialize");
    let tx2 = UnsignedTransaction::from_slice(&serialized).expect("Failed to deserialize");
    assert_eq!(
        tx1, tx2,
        "Empty transaction should be equal after serialization and deserialization"
    );
}

#[test]
fn test_transaction_multiple_outputs() {
    let tx1 = UnsignedTransaction {
        version: 3,
        nonce: 54321,
        inputs: vec![LeafId { txid: Txid::from_slice(&[10u8; 32]).unwrap(), index: 5 }],
        outputs: vec![
            Leaf {
                version: 1,
                owner: Address::from_slice(&[11u8; 20]).unwrap(),
                index_key: IndexKey::from_slice(&[12u8; 32]).unwrap(),
                operator: Some(LeafId {
                    txid: Txid::from_slice(&[13u8; 32]).unwrap(),
                    index: 10,
                }),
                data: Bytes(vec![100, 101, 102]),
            },
            Leaf {
                version: 2,
                owner: Address::from_slice(&[21u8; 20]).unwrap(),
                index_key: IndexKey::from_slice(&[22u8; 32]).unwrap(),
                operator: Some(LeafId {
                    txid: Txid::from_slice(&[23u8; 32]).unwrap(),
                    index: 20,
                }),
                data: Bytes(vec![200]),
            },
        ],
    };

    let serialized = tx1.to_vec().expect("Failed to serialize");
    let tx2 = UnsignedTransaction::from_slice(&serialized).expect("Failed to deserialize");
    assert_eq!(
        tx1, tx2,
        "Transaction with multiple outputs should be equal after serialization and deserialization"
    );
}
