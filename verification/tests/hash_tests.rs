use bbm_ledger::{
    Address, Bytes, Error, IndexKey, Leaf, LeafId, Script, Transaction, Txid, UnlockScript,
    UnlockScriptType, UnsignedTransaction,
};
use sha3::Digest;

fn sample_unsigned() -> UnsignedTransaction {
    UnsignedTransaction {
        version: 1,
        nonce: 42,
        inputs: vec![LeafId { txid: Txid::from_slice(&[1u8; 32]).unwrap(), index: 0 }],
        outputs: vec![Leaf {
            version: 1,
            owner: Address::from_slice(&[2u8; 20]).unwrap(),
            index_key: IndexKey::from_slice(&[3u8; 32]).unwrap(),
            operator: None,
            data: Bytes(vec![9, 8, 7]),
        }],
    }
}

#[test]
fn test_hash_matches_direct_digest() {
    let u = sample_unsigned();
    let bytes = u.to_vec().unwrap();
    let expected = sha3::Sha3_256::digest(&bytes);
    let txid = u.hash().unwrap();
    assert_eq!(txid.as_slice(), &expected[..]);
}

#[test]
fn test_hash_ignores_unlockers() {
    let t1 = Transaction {
        unsigned: sample_unsigned(),
        unlockers: vec![Bytes(vec![1, 2, 3])],
    };
    let t2 = Transaction {
        unsigned: sample_unsigned(),
        unlockers: vec![Bytes(vec![99, 98, 97, 96])],
    };
    assert_eq!(t1.unsigned.hash().unwrap(), t2.unsigned.hash().unwrap());
}

#[test]
fn test_hash_changes_with_nonce() {
    let u1 = sample_unsigned();
    let mut u2 = sample_unsigned();
    u2.nonce = 43;
    assert_ne!(u1.hash().unwrap(), u2.hash().unwrap());
}

#[test]
fn test_unlock_script_address_matches_direct_digest() {
    let s = UnlockScript {
        version: 2,
        ty: UnlockScriptType::Wasm,
        code_leaf: bbm_ledger::FixedBytes::<32>::from_slice(&[7u8; 32]).unwrap(),
        args: vec![5, 6],
    };
    let mut preimage = vec![2u8, 1u8];
    preimage.extend_from_slice(&[7u8; 32]);
    preimage.extend_from_slice(&[5, 6]);
    let digest = sha3::Sha3_256::digest(&preimage);
    let addr = s.address().unwrap();
    assert_eq!(addr.as_slice(), &digest[..20]);
}

#[test]
fn test_script_address_ignores_data() {
    let s1 = Script {
        version: 1,
        ty: UnlockScriptType::Empty,
        code: Bytes(vec![1, 2, 3]),
        args: Bytes(vec![4]),
        data: Bytes(vec![5, 6]),
    };
    let s2 = Script {
        version: 1,
        ty: UnlockScriptType::Empty,
        code: Bytes(vec![1, 2, 3]),
        args: Bytes(vec![4]),
        data: Bytes(vec![7, 8, 9, 10]),
    };
    assert_eq!(s1.address().unwrap(), s2.address().unwrap());
}

#[test]
fn test_script_address_depends_on_code() {
    let s1 = Script {
        version: 1,
        ty: UnlockScriptType::Empty,
        code: Bytes(vec![1, 2, 3]),
        args: Bytes(vec![]),
        data: Bytes(vec![]),
    };
    let s2 = Script {
        version: 1,
        ty: UnlockScriptType::Empty,
        code: Bytes(vec![1, 2, 4]),
        args: Bytes(vec![]),
        data: Bytes(vec![]),
    };
    assert_ne!(s1.address().unwrap(), s2.address().unwrap());
}

#[test]
fn test_unlock_script_round_trip() {
    let s = UnlockScript {
        version: 1,
        ty: UnlockScriptType::Wasm,
        code_leaf: bbm_ledger::FixedBytes::<32>::from_slice(&[9u8; 32]).unwrap(),
        args: vec![1, 2, 3, 4],
    };
    let mut bytes = Vec::new();
    s.append_to_vec(&mut bytes).unwrap();
    let back = UnlockScript::from_slice(&bytes).unwrap();
    assert_eq!(s, back);
}

#[test]
fn test_script_round_trip() {
    let s = Script {
        version: 3,
        ty: UnlockScriptType::Wasm,
        code: Bytes(vec![0, 97, 115, 109]),
        args: Bytes(vec![1, 2]),
        data: Bytes(vec![42; 7]),
    };
    let mut bytes = Vec::new();
    s.append_to_vec(&mut bytes).unwrap();
    let back = Script::from_slice(&bytes).unwrap();
    assert_eq!(s, back);
}

#[test]
fn test_script_type_tags() {
    assert_eq!(UnlockScriptType::Empty.to_u8(), 0);
    assert_eq!(UnlockScriptType::Wasm.to_u8(), 1);
    assert!(matches!(UnlockScriptType::from_u8(0), Some(UnlockScriptType::Empty)));
    assert!(matches!(UnlockScriptType::from_u8(1), Some(UnlockScriptType::Wasm)));
    assert!(UnlockScriptType::from_u8(2).is_none());
}

#[test]
fn test_codec_error_variants() {
    match Address::from_slice(&[1u8; 3]) {
        Err(Error::WrongLengthForFixedBytes(3, 20)) => {}
        other => panic!("unexpected: {:?}", other),
    }
    match LeafId::from_slice(&[0u8; 10]) {
        Err(Error::WrongLengthForLeafId(10, 36)) => {}
        other => panic!("unexpected: {:?}", other),
    }
    match UnsignedTransaction::from_slice(&[0u8; 5]) {
        Err(Error::WrongLengthForTx(5, 17)) => {}
        other => panic!("unexpected: {:?}", other),
    }
    match UnlockScript::from_slice(&[0u8; 4]) {
        Err(Error::WrongLengthForUnlockScript(4, 38)) => {}
        other => panic!("unexpected: {:?}", other),
    }
    match Script::from_slice(&[0u8; 4]) {
        Err(Error::WrongLengthForScript(4, 10)) => {}
        other => panic!("unexpected: {:?}", other),
    }
    let mut bad_script = vec![1u8, 9u8];
    bad_script.extend_from_slice(&0u32.to_be_bytes());
    bad_script.extend_from_slice(&0u32.to_be_bytes());
    match Script::from_slice(&bad_script) {
        Err(Error::InvalidScriptType(9)) => {}
        other => panic!("unexpected: {:?}", other),
    }
}
