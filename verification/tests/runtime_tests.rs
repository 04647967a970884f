use bbm_ledger::{
    Address, BatchError, Bytes, CheckerError, CommittableStorage, IndexKey, Leaf, LeafId,
    LeafStorage, MemoryStorage, Runtime, SandboxError, Script, ScriptValidator, Storage,
    Transaction, Txid, UnlockScriptType, UnsignedTransaction,
};

/// A sandbox that passes everything.
struct AcceptAll;

impl ScriptValidator for AcceptAll {
    fn validate_script(
        &self,
        _script: &Script,
        _unsigned: &UnsignedTransaction,
        _unlocker: &Bytes,
    ) -> Result<(), SandboxError> {
        Ok(())
    }

    fn validate_operator(
        &self,
        _operator_code: &Bytes,
        _operator_leaf_id: &LeafId,
        _unsigned: &UnsignedTransaction,
    ) -> Result<(), SandboxError> {
        Ok(())
    }
}

/// A sandbox that fails every locking script.
struct RejectScripts;

impl ScriptValidator for RejectScripts {
    fn validate_script(
        &self,
        _script: &Script,
        _unsigned: &UnsignedTransaction,
        _unlocker: &Bytes,
    ) -> Result<(), SandboxError> {
        Err(SandboxError::Trapped)
    }

    fn validate_operator(
        &self,
        _operator_code: &Bytes,
        _operator_leaf_id: &LeafId,
        _unsigned: &UnsignedTransaction,
    ) -> Result<(), SandboxError> {
        Ok(())
    }
}

/// A leaf whose data is a well-formed empty script, so the runtime can parse
/// and validate it.
fn script_leaf(owner_byte: u8) -> Leaf {
    let script = Script {
        version: 1,
        ty: UnlockScriptType::Empty,
        code: Bytes(vec![]),
        args: Bytes(vec![]),
        data: Bytes(vec![]),
    };
    let mut data = Vec::new();
    script.append_to_vec(&mut data).unwrap();
    Leaf {
        version: 1,
        owner: Address::from_slice(&[owner_byte; 20]).unwrap(),
        index_key: IndexKey::from_slice(&[owner_byte; 32]).unwrap(),
        operator: None,
        data: Bytes(data),
    }
}

fn id(byte: u8, index: u32) -> LeafId {
    LeafId { txid: Txid::from_slice(&[byte; 32]).unwrap(), index }
}

fn storage_with(leaves: Vec<(LeafId, Leaf)>) -> MemoryStorage {
    let storage = MemoryStorage::new();
    let mut view = storage.open_leaf_storage().unwrap();
    for (leaf_id, leaf) in leaves {
        view.store_leaf(&leaf_id, leaf).unwrap();
    }
    view.commit(1).unwrap()
}

#[test]
fn test_batch_commits_outputs_and_spends_inputs() {
    let l = id(5, 0);
    let storage = storage_with(vec![(l.clone(), script_leaf(1))]);
    let tx = Transaction {
        unsigned: UnsignedTransaction {
            version: 1,
            nonce: 7,
            inputs: vec![l.clone()],
            outputs: vec![script_leaf(2)],
        },
        unlockers: vec![Bytes(vec![1])],
    };
    let txid = tx.unsigned.hash().unwrap();
    let mut runtime = Runtime::new(storage);
    runtime.batch_execute_transaction(&AcceptAll, vec![tx]).unwrap();

    assert_eq!(runtime.storage().current_version(), 2);
    let reader = runtime.storage().open_leaf_storage().unwrap();
    let produced = LeafId { txid, index: 0 };
    assert_eq!(reader.get_leaf(&produced).unwrap().unwrap(), script_leaf(2));
    assert!(reader.is_leaf_spent(&l).unwrap());
}

#[test]
fn test_batch_forward_reference_commits_both() {
    let t_a = Transaction {
        unsigned: UnsignedTransaction {
            version: 1,
            nonce: 1,
            inputs: vec![],
            outputs: vec![script_leaf(10)],
        },
        unlockers: vec![],
    };
    let txid_a = t_a.unsigned.hash().unwrap();
    let consumed = LeafId { txid: txid_a, index: 0 };
    let t_b = Transaction {
        unsigned: UnsignedTransaction {
            version: 1,
            nonce: 2,
            inputs: vec![consumed.clone()],
            outputs: vec![script_leaf(11)],
        },
        unlockers: vec![Bytes(vec![])],
    };
    let txid_b = t_b.unsigned.hash().unwrap();

    let mut runtime = Runtime::new(MemoryStorage::new());
    runtime
        .batch_execute_transaction(&AcceptAll, vec![t_a, t_b])
        .unwrap();

    let reader = runtime.storage().open_leaf_storage().unwrap();
    assert!(reader.get_leaf(&consumed).unwrap().is_some());
    assert!(reader.is_leaf_spent(&consumed).unwrap());
    let produced_b = LeafId { txid: txid_b, index: 0 };
    assert!(reader.get_leaf(&produced_b).unwrap().is_some());
}

#[test]
fn test_failed_batch_leaves_storage_untouched() {
    // The batch fails at its second transaction, after the first checked
    // fine: nothing at all is committed.
    let l = id(5, 0);
    let storage = storage_with(vec![(l.clone(), script_leaf(1))]);
    let good = Transaction {
        unsigned: UnsignedTransaction {
            version: 1,
            nonce: 1,
            inputs: vec![l.clone()],
            outputs: vec![script_leaf(2)],
        },
        unlockers: vec![Bytes(vec![])],
    };
    let missing = id(99, 0);
    let bad = Transaction {
        unsigned: UnsignedTransaction {
            version: 1,
            nonce: 2,
            inputs: vec![missing.clone()],
            outputs: vec![],
        },
        unlockers: vec![Bytes(vec![])],
    };
    let good_txid = good.unsigned.hash().unwrap();

    let mut runtime = Runtime::new(storage);
    match runtime.batch_execute_transaction(&AcceptAll, vec![good, bad]) {
        Err(BatchError::Checker(CheckerError::InputNotFound(got))) => {
            assert_eq!(got, missing);
        }
        other => panic!("unexpected: {:?}", other),
    }

    assert_eq!(runtime.storage().current_version(), 1);
    let reader = runtime.storage().open_leaf_storage().unwrap();
    assert!(!reader.is_leaf_spent(&l).unwrap());
    assert!(reader.get_leaf(&LeafId { txid: good_txid, index: 0 }).unwrap().is_none());
}

#[test]
fn test_failed_script_validation_commits_nothing() {
    let l = id(5, 0);
    let storage = storage_with(vec![(l.clone(), script_leaf(1))]);
    let tx = Transaction {
        unsigned: UnsignedTransaction {
            version: 1,
            nonce: 7,
            inputs: vec![l.clone()],
            outputs: vec![script_leaf(2)],
        },
        unlockers: vec![Bytes(vec![1])],
    };
    let mut runtime = Runtime::new(storage);
    match runtime.batch_execute_transaction(&RejectScripts, vec![tx]) {
        Err(BatchError::Script(got, SandboxError::Trapped)) => assert_eq!(got, l),
        other => panic!("unexpected: {:?}", other),
    }
    assert_eq!(runtime.storage().current_version(), 1);
    let reader = runtime.storage().open_leaf_storage().unwrap();
    assert!(!reader.is_leaf_spent(&l).unwrap());
}

#[test]
fn test_operator_validated_and_batch_commits() {
    let q = id(9, 3);
    let l = id(5, 0);
    let mut locked = script_leaf(1);
    locked.operator = Some(q.clone());
    let storage = storage_with(vec![(l.clone(), locked), (q.clone(), script_leaf(7))]);
    let tx = Transaction {
        unsigned: UnsignedTransaction {
            version: 1,
            nonce: 7,
            inputs: vec![l.clone()],
            outputs: vec![],
        },
        unlockers: vec![Bytes(vec![])],
    };
    let mut runtime = Runtime::new(storage);
    runtime.batch_execute_transaction(&AcceptAll, vec![tx]).unwrap();
    let reader = runtime.storage().open_leaf_storage().unwrap();
    assert!(reader.is_leaf_spent(&l).unwrap());
}
