use std::cmp::Ordering;

use anoma_storage::codec::{encode_dec, parse_dec_exec};
use anoma_storage::db::{open, DB};
use anoma_storage::error::{unknown_key_error, Error};
use anoma_storage::ibc::Ibc;
use anoma_storage::order::key_comparator;
use anoma_storage::types::{Address, BlockHash, BlockHeight, MerkleTree, Subspaces};

fn addr(s: &str) -> Address {
    Address::from_key_seg(s.as_bytes()).expect("a valid address segment")
}

fn tree(byte: u8) -> MerkleTree {
    MerkleTree::new(vec![byte; 32], vec![byte, byte]).expect("a 32-byte root")
}

fn hash(byte: u8) -> BlockHash {
    BlockHash::new(vec![byte; 32]).expect("a 32-byte hash")
}

fn store() -> DB {
    open("unused").expect("opening the store")
}

#[test]
fn heights_order_numerically() {
    assert_eq!(key_comparator(b"9/hash", b"10/hash"), Ordering::Less);
    assert_eq!(key_comparator(b"10/hash", b"9/hash"), Ordering::Greater);
    assert_eq!(key_comparator(b"2/hash", b"2/hash"), Ordering::Equal);
    assert_eq!(key_comparator(b"2/hash", b"2/tree/root"), Ordering::Less);
    assert_eq!(key_comparator(b"199/x", b"1199/x"), Ordering::Less);
}

#[test]
fn non_numeric_keys_order_bytewise() {
    assert_eq!(key_comparator(b"chain_id", b"height"), Ordering::Less);
    assert_eq!(key_comparator(b"height", b"chain_id"), Ordering::Greater);
    assert_eq!(key_comparator(b"chain_id", b"9/hash"), Ordering::Greater);
    assert_eq!(key_comparator(b"9/hash", b"chain_id"), Ordering::Less);
}

#[test]
fn decimal_codec_round_trips() {
    assert_eq!(encode_dec(0), b"0".to_vec());
    assert_eq!(encode_dec(905), b"905".to_vec());
    assert_eq!(parse_dec_exec(b"905"), Some(905));
    assert_eq!(parse_dec_exec(b"0"), Some(0));
    assert_eq!(parse_dec_exec(b""), None);
    assert_eq!(parse_dec_exec(b"12a"), None);
    assert_eq!(parse_dec_exec(b"18446744073709551615"), Some(u64::MAX));
    assert_eq!(parse_dec_exec(b"18446744073709551616"), None);
}

#[test]
fn historical_fallback() {
    let mut db = store();
    db.write_chain_id(&b"test-chain".to_vec()).expect("chain id");
    let a = addr("alice");

    let mut s1 = Subspaces::new();
    s1.insert(addr("alice"), b"balance".to_vec(), b"v1".to_vec());
    db.write_block(&tree(1), &hash(1), BlockHeight(1), &s1).expect("block 1");

    let mut s5 = Subspaces::new();
    s5.insert(addr("alice"), b"balance".to_vec(), b"v5".to_vec());
    db.write_block(&tree(5), &hash(5), BlockHeight(5), &s5).expect("block 5");

    assert_eq!(db.read(BlockHeight(3), &a, b"balance").unwrap(), Some(b"v1".to_vec()));
    assert_eq!(db.read(BlockHeight(5), &a, b"balance").unwrap(), Some(b"v5".to_vec()));
    assert_eq!(db.read(BlockHeight(9), &a, b"balance").unwrap(), Some(b"v5".to_vec()));
    assert_eq!(db.read(BlockHeight(0), &a, b"balance").unwrap(), None);
    assert_eq!(db.read(BlockHeight(5), &a, b"nonce").unwrap(), None);
    assert_eq!(db.read(BlockHeight(5), &addr("bob"), b"balance").unwrap(), None);
}

#[test]
fn round_trip_recovery() {
    let mut db = store();
    assert!(db.read_last_block().expect("no state yet").is_none());
    db.write_chain_id(&b"test-chain".to_vec()).expect("chain id");

    let mut s1 = Subspaces::new();
    s1.insert(addr("alice"), b"balance".to_vec(), b"10".to_vec());
    db.write_block(&tree(1), &hash(1), BlockHeight(1), &s1).expect("block 1");

    let mut s2 = Subspaces::new();
    s2.insert(addr("alice"), b"balance".to_vec(), b"7".to_vec());
    s2.insert(addr("bob"), b"balance".to_vec(), b"3".to_vec());
    s2.insert(addr("bob"), b"meta/flags".to_vec(), b"x".to_vec());
    db.write_block(&tree(2), &hash(2), BlockHeight(2), &s2).expect("block 2");

    let (cid, t, h, bh, subs) = db.read_last_block().expect("recovery").expect("a block");
    assert_eq!(cid, b"test-chain".to_vec());
    assert_eq!(bh, BlockHeight(2));
    assert_eq!(t.root(), vec![2u8; 32]);
    assert_eq!(t.store(), vec![2u8, 2u8]);
    assert_eq!(h.encode(), vec![2u8; 32]);
    assert_eq!(subs.addr_count(), 2);
    assert_eq!(subs.get(&addr("alice"), b"balance"), Some(&b"7".to_vec()));
    assert_eq!(subs.get(&addr("bob"), b"balance"), Some(&b"3".to_vec()));
    assert_eq!(subs.get(&addr("bob"), b"meta/flags"), Some(&b"x".to_vec()));
    assert_eq!(subs.get(&addr("alice"), b"meta/flags"), None);
}

#[test]
fn flush_reports_ok() {
    let db = store();
    assert!(db.flush().is_ok());
}

#[test]
fn unknown_key_aborts_recovery() {
    let mut db = store();
    db.write_chain_id(&b"c".to_vec()).expect("chain id");
    db.write_block(&tree(7), &hash(7), BlockHeight(7), &Subspaces::new()).expect("block 7");
    db.write_raw(b"7/bogus".to_vec(), b"zzz".to_vec());
    match db.read_last_block() {
        Err(Error::UnknownKey { key }) => assert_eq!(key, b"7/bogus".to_vec()),
        other => panic!("expected an unknown-key error, got {:?}", other.is_ok()),
    }
}

#[test]
fn missing_essential_data_aborts_recovery() {
    let mut db = store();
    db.write_raw(b"chain_id".to_vec(), b"c".to_vec());
    db.write_raw(b"height".to_vec(), b"2".to_vec());
    db.write_raw(b"2/hash".to_vec(), vec![9u8; 32]);
    match db.read_last_block() {
        Err(Error::Temporary { .. }) => {}
        other => panic!("expected a recoverable error, got {:?}", other.is_ok()),
    }
}

#[test]
fn malformed_height_pointer_is_temporary() {
    let mut db = store();
    db.write_raw(b"chain_id".to_vec(), b"c".to_vec());
    db.write_raw(b"height".to_vec(), b"not-a-number".to_vec());
    assert!(matches!(db.read_last_block(), Err(Error::Temporary { .. })));
}

#[test]
fn missing_chain_id_or_height_is_no_state() {
    let mut db = store();
    assert!(db.read_last_block().unwrap().is_none());
    db.write_chain_id(&b"c".to_vec()).expect("chain id");
    assert!(db.read_last_block().unwrap().is_none());
}

#[test]
fn unknown_key_error_names_the_path() {
    match unknown_key_error(b"9/what".to_vec()) {
        Err(Error::UnknownKey { key }) => assert_eq!(key, b"9/what".to_vec()),
        _ => unreachable!(),
    }
}

#[test]
fn address_parses_back() {
    assert!(Address::from_key_seg(b"").is_none());
    assert!(Address::from_key_seg(b"a/b").is_none());
    let a = Address::from_key_seg(b"alice").unwrap();
    assert_eq!(a.to_key_seg(), b"alice".to_vec());
    assert_eq!(a.duplicate().to_key_seg(), b"alice".to_vec());
}

#[test]
fn hash_and_tree_check_their_lengths() {
    assert!(BlockHash::new(vec![0u8; 31]).is_none());
    assert!(BlockHash::new(vec![0u8; 32]).is_some());
    assert!(MerkleTree::new(vec![0u8; 33], vec![]).is_none());
    let t = MerkleTree::new(vec![1u8; 32], b"nodes".to_vec()).unwrap();
    assert_eq!(t.root(), vec![1u8; 32]);
    assert_eq!(t.store(), b"nodes".to_vec());
}

#[test]
fn subspaces_overwrite_and_count() {
    let mut s = Subspaces::new();
    s.insert(addr("a"), b"k".to_vec(), b"1".to_vec());
    s.insert(addr("a"), b"k".to_vec(), b"2".to_vec());
    s.insert(addr("b"), b"k".to_vec(), b"3".to_vec());
    assert_eq!(s.addr_count(), 2);
    assert_eq!(s.get(&addr("a"), b"k"), Some(&b"2".to_vec()));
    assert_eq!(s.get(&addr("b"), b"k"), Some(&b"3".to_vec()));
}

#[test]
fn channel_counter_must_grow() {
    let pre = 4u64.to_le_bytes().to_vec();
    let bigger = 5u64.to_le_bytes().to_vec();
    let same = 4u64.to_le_bytes().to_vec();
    let v = Ibc { pre_counter: Some(pre.clone()), post_counter: Some(bigger) };
    assert_eq!(v.channel_counter_pre().ok(), Some(4));
    assert_eq!(v.channel_counter(), 5);
    assert!(v.validate_channel_counter().unwrap());
    let w = Ibc { pre_counter: Some(pre.clone()), post_counter: Some(same) };
    assert!(!w.validate_channel_counter().unwrap());
    let x = Ibc { pre_counter: None, post_counter: None };
    assert!(x.validate_channel_counter().is_err());
    let y = Ibc { pre_counter: Some(b"bad".to_vec()), post_counter: None };
    assert!(y.channel_counter_pre().is_err());
}
