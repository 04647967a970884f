use bbm_ledger::{
    Address, Bytes, CheckerError, CommittableStorage, IndexKey, Leaf, LeafId, LeafStorage,
    MemoryStorage, Storage, Transaction, TransactionChecker, Txid, UnsignedTransaction,
};

fn leaf_with(owner_byte: u8, operator: Option<LeafId>) -> Leaf {
    Leaf {
        version: 1,
        owner: Address::from_slice(&[owner_byte; 20]).unwrap(),
        index_key: IndexKey::from_slice(&[owner_byte; 32]).unwrap(),
        operator,
        data: Bytes(vec![owner_byte]),
    }
}

fn id(byte: u8, index: u32) -> LeafId {
    LeafId { txid: Txid::from_slice(&[byte; 32]).unwrap(), index }
}

/// A view over an empty store, with some leaves stored into it.
fn view_with(leaves: Vec<(LeafId, Leaf)>) -> <MemoryStorage as Storage>::LeafStorage {
    let storage = MemoryStorage::new();
    let mut view = storage.open_leaf_storage().unwrap();
    for (leaf_id, leaf) in leaves {
        view.store_leaf(&leaf_id, leaf).unwrap();
    }
    view
}

#[test]
fn test_check_input_length_mismatch() {
    // Two inputs, one unlocker: rejected before anything else.
    let tx = Transaction {
        unsigned: UnsignedTransaction {
            version: 1,
            nonce: 1,
            inputs: vec![id(1, 0), id(2, 0)],
            outputs: vec![],
        },
        unlockers: vec![Bytes(vec![1])],
    };
    let view = view_with(vec![]);
    let mut checker = TransactionChecker::new();
    match checker.check_leaf_id(&view, tx) {
        Err(CheckerError::InputLengthMismatch(_)) => {}
        other => panic!("unexpected: {:?}", other.map(|_| ())),
    }
}

#[test]
fn test_check_input_not_found() {
    let tx = Transaction {
        unsigned: UnsignedTransaction {
            version: 1,
            nonce: 1,
            inputs: vec![id(1, 0)],
            outputs: vec![],
        },
        unlockers: vec![Bytes(vec![])],
    };
    let view = view_with(vec![]);
    let mut checker = TransactionChecker::new();
    match checker.check_leaf_id(&view, tx) {
        Err(CheckerError::InputNotFound(l)) => assert_eq!(l, id(1, 0)),
        other => panic!("unexpected: {:?}", other.map(|_| ())),
    }
}

#[test]
fn test_check_forward_reference() {
    // T_a produces one output; T_b consumes it. Storage is empty, so the
    // checker can only have admitted T_b's input from the batch buffer.
    let t_a = Transaction {
        unsigned: UnsignedTransaction {
            version: 1,
            nonce: 1,
            inputs: vec![],
            outputs: vec![leaf_with(10, None)],
        },
        unlockers: vec![],
    };
    let txid_a = t_a.unsigned.hash().unwrap();
    let t_b = Transaction {
        unsigned: UnsignedTransaction {
            version: 1,
            nonce: 2,
            inputs: vec![LeafId { txid: txid_a, index: 0 }],
            outputs: vec![],
        },
        unlockers: vec![Bytes(vec![])],
    };
    let view = view_with(vec![]);
    let mut checker = TransactionChecker::new();
    let f_a = checker.check_leaf_id(&view, t_a).unwrap();
    assert_eq!(f_a.inputs.len(), 0);
    let f_b = checker.check_leaf_id(&view, t_b).unwrap();
    assert_eq!(f_b.inputs.len(), 1);
    assert_eq!(f_b.inputs[0], leaf_with(10, None));
}

#[test]
fn test_check_double_spend_within_batch() {
    // Storage holds L; T_a and T_b both consume it.
    let l = id(5, 0);
    let view = view_with(vec![(l.clone(), leaf_with(1, None))]);
    let t_a = Transaction {
        unsigned: UnsignedTransaction {
            version: 1,
            nonce: 1,
            inputs: vec![l.clone()],
            outputs: vec![],
        },
        unlockers: vec![Bytes(vec![])],
    };
    let t_b = Transaction {
        unsigned: UnsignedTransaction {
            version: 1,
            nonce: 2,
            inputs: vec![l.clone()],
            outputs: vec![],
        },
        unlockers: vec![Bytes(vec![])],
    };
    let mut checker = TransactionChecker::new();
    checker.check_leaf_id(&view, t_a).unwrap();
    match checker.check_leaf_id(&view, t_b) {
        Err(CheckerError::DoubleSpendInBatch(got)) => assert_eq!(got, l),
        other => panic!("unexpected: {:?}", other.map(|_| ())),
    }
}

#[test]
fn test_check_double_spend_same_transaction() {
    let l = id(5, 0);
    let view = view_with(vec![(l.clone(), leaf_with(1, None))]);
    let tx = Transaction {
        unsigned: UnsignedTransaction {
            version: 1,
            nonce: 1,
            inputs: vec![l.clone(), l.clone()],
            outputs: vec![],
        },
        unlockers: vec![Bytes(vec![]), Bytes(vec![])],
    };
    let mut checker = TransactionChecker::new();
    match checker.check_leaf_id(&view, tx) {
        Err(CheckerError::DoubleSpendInBatch(got)) => assert_eq!(got, l),
        other => panic!("unexpected: {:?}", other.map(|_| ())),
    }
}

#[test]
fn test_check_rejects_spent_input() {
    let l = id(5, 0);
    let mut view = view_with(vec![(l.clone(), leaf_with(1, None))]);
    view.mark_leaf_as_spent(&l).unwrap();
    let tx = Transaction {
        unsigned: UnsignedTransaction {
            version: 1,
            nonce: 1,
            inputs: vec![l.clone()],
            outputs: vec![],
        },
        unlockers: vec![Bytes(vec![])],
    };
    let mut checker = TransactionChecker::new();
    match checker.check_leaf_id(&view, tx) {
        Err(CheckerError::InputAlreadySpent(got)) => assert_eq!(got, l),
        other => panic!("unexpected: {:?}", other.map(|_| ())),
    }
}

#[test]
fn test_check_operator_not_found() {
    let q = id(9, 3);
    let l = id(5, 0);
    let view = view_with(vec![(l.clone(), leaf_with(1, Some(q.clone())))]);
    let tx = Transaction {
        unsigned: UnsignedTransaction {
            version: 1,
            nonce: 1,
            inputs: vec![l],
            outputs: vec![],
        },
        unlockers: vec![Bytes(vec![])],
    };
    let mut checker = TransactionChecker::new();
    match checker.check_leaf_id(&view, tx) {
        Err(CheckerError::OperatorNotFound(got)) => assert_eq!(got, q),
        other => panic!("unexpected: {:?}", other.map(|_| ())),
    }
}

#[test]
fn test_check_operator_collected_once() {
    // Three inputs whose leaves all name the same operator Q: the operators
    // map holds Q exactly once.
    let q = id(9, 3);
    let q_leaf = leaf_with(99, None);
    let (l1, l2, l3) = (id(1, 0), id(2, 0), id(3, 0));
    let view = view_with(vec![
        (l1.clone(), leaf_with(1, Some(q.clone()))),
        (l2.clone(), leaf_with(2, Some(q.clone()))),
        (l3.clone(), leaf_with(3, Some(q.clone()))),
        (q.clone(), q_leaf.clone()),
    ]);
    let tx = Transaction {
        unsigned: UnsignedTransaction {
            version: 1,
            nonce: 1,
            inputs: vec![l1, l2, l3],
            outputs: vec![],
        },
        unlockers: vec![Bytes(vec![]), Bytes(vec![]), Bytes(vec![])],
    };
    let mut checker = TransactionChecker::new();
    checker.check_leaf_id(&view, tx).unwrap();
    let operators = checker.operators();
    assert_eq!(operators.len(), 1);
    assert_eq!(operators[0].0, q);
    assert_eq!(operators[0].1, q_leaf);
}

#[test]
fn test_check_does_not_touch_durable_storage() {
    // A failing check never changes what is committed: the view buffers, and
    // it is simply dropped.
    let storage = MemoryStorage::new();
    let view = storage.open_leaf_storage().unwrap();
    let tx = Transaction {
        unsigned: UnsignedTransaction {
            version: 1,
            nonce: 1,
            inputs: vec![id(1, 0)],
            outputs: vec![leaf_with(4, None)],
        },
        unlockers: vec![Bytes(vec![])],
    };
    let mut checker = TransactionChecker::new();
    assert!(checker.check_leaf_id(&view, tx).is_err());
    drop(view);
    assert_eq!(storage.current_version(), 0);
    let fresh = storage.open_leaf_storage().unwrap();
    assert!(fresh.get_leaf(&id(1, 0)).unwrap().is_none());
}

#[test]
fn test_commit_and_read_back() {
    let l = id(5, 0);
    let storage = MemoryStorage::new();
    let mut view = storage.open_leaf_storage().unwrap();
    view.store_leaf(&l, leaf_with(1, None)).unwrap();
    let committed = view.commit(1).unwrap();
    assert_eq!(committed.current_version(), 1);
    let reader = committed.open_leaf_storage().unwrap();
    assert_eq!(reader.get_leaf(&l).unwrap().unwrap(), leaf_with(1, None));
    assert!(!reader.is_leaf_spent(&l).unwrap());
}

#[test]
fn test_spent_mark_survives_commit_and_leaf_stays_readable() {
    let l = id(5, 0);
    let storage = MemoryStorage::new();
    let mut view = storage.open_leaf_storage().unwrap();
    view.store_leaf(&l, leaf_with(1, None)).unwrap();
    let committed = view.commit(1).unwrap();
    let mut view2 = committed.open_leaf_storage().unwrap();
    view2.mark_leaf_as_spent(&l).unwrap();
    assert!(view2.is_leaf_spent(&l).unwrap());
    let committed2 = view2.commit(2).unwrap();
    let reader = committed2.open_leaf_storage().unwrap();
    assert!(reader.is_leaf_spent(&l).unwrap());
    assert!(reader.get_leaf(&l).unwrap().is_some());
}

#[test]
fn test_purge_spent_leaves() {
    let l = id(5, 0);
    let keep = id(6, 0);
    let storage = MemoryStorage::new();
    let mut view = storage.open_leaf_storage().unwrap();
    view.store_leaf(&l, leaf_with(1, None)).unwrap();
    view.store_leaf(&keep, leaf_with(2, None)).unwrap();
    view.mark_leaf_as_spent(&l).unwrap();
    let committed = view.commit(1).unwrap();
    let mut view2 = committed.open_leaf_storage().unwrap();
    view2.purge_spent_leaves().unwrap();
    assert!(view2.get_leaf(&l).unwrap().is_none());
    assert!(view2.get_leaf(&keep).unwrap().is_some());
}

#[test]
fn test_get_leaf_by_index_key() {
    let storage = MemoryStorage::new();
    let mut view = storage.open_leaf_storage().unwrap();
    let a = id(1, 0);
    let b = id(2, 0);
    let c = id(3, 0);
    // a and b share an index key; c does not.
    let mut la = leaf_with(1, None);
    la.index_key = IndexKey::from_slice(&[77u8; 32]).unwrap();
    let mut lb = leaf_with(2, None);
    lb.index_key = IndexKey::from_slice(&[77u8; 32]).unwrap();
    let lc = leaf_with(3, None);
    view.store_leaf(&a, la).unwrap();
    view.store_leaf(&b, lb).unwrap();
    view.store_leaf(&c, lc).unwrap();
    let found = view
        .get_leaf_by_index_key(&IndexKey::from_slice(&[77u8; 32]).unwrap())
        .unwrap();
    assert_eq!(found.len(), 2);
    assert!(found.iter().any(|p| p.leaf_id == a));
    assert!(found.iter().any(|p| p.leaf_id == b));
}

#[test]
fn test_revert_to_version() {
    let l1 = id(1, 0);
    let l2 = id(2, 0);
    let storage = MemoryStorage::new();
    let mut view = storage.open_leaf_storage().unwrap();
    view.store_leaf(&l1, leaf_with(1, None)).unwrap();
    let committed1 = view.commit(1).unwrap();
    let mut view2 = committed1.open_leaf_storage().unwrap();
    view2.store_leaf(&l2, leaf_with(2, None)).unwrap();
    view2.mark_leaf_as_spent(&l1).unwrap();
    let mut committed2 = view2.commit(2).unwrap();
    assert_eq!(committed2.current_version(), 2);

    committed2.revert_to_version(1).unwrap();
    assert_eq!(committed2.current_version(), 1);
    let reader = committed2.open_leaf_storage().unwrap();
    // The leaf stored at version 2 is gone; the spent mark set at version 2
    // is off; the leaf stored at version 1 is back to unspent.
    assert!(reader.get_leaf(&l2).unwrap().is_none());
    assert!(reader.get_leaf(&l1).unwrap().is_some());
    assert!(!reader.is_leaf_spent(&l1).unwrap());
}
