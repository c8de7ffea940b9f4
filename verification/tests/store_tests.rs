use agger::store::{AggerStore, StoreError, UserQueryKey};
use agger::types::{AccountAddress, DecodeError, Query, UserQuery};

fn user_query(seq: u64, id: u64) -> UserQuery {
    UserQuery {
        version: 40 + seq,
        sequence_number: seq,
        user: AccountAddress { bytes: vec![1; 32] },
        id,
        query: Query {
            module_address: vec![2; 32],
            module_name: b"m".to_vec(),
            function_name: b"f".to_vec(),
            deadline: 0,
            args: vec![],
            ty_args: vec![],
            success: None,
            result: None,
        },
    }
}

#[test]
fn key_round_trip() {
    let key = UserQueryKey::from(77u64);
    let bytes = key.encode_key();
    assert_eq!(bytes, 77u64.to_le_bytes().to_vec());
    let back = UserQueryKey::decode_key(&bytes).unwrap();
    assert_eq!(back.sequence_number, 77);
}

#[test]
fn key_rejects_wrong_length() {
    assert!(UserQueryKey::decode_key(&vec![1, 2, 3]).is_err());
    assert!(UserQueryKey::decode_key(&vec![0; 9]).is_err());
}

#[test]
fn empty_store_has_no_state() {
    let store = AggerStore::new();
    assert!(store.last_proved_event_number().is_none());
    assert!(store.last_seen_event().is_none());
    assert!(store.get_query(0).is_none());
    assert!(store.get_proof(0).is_none());
}

#[test]
fn put_query_then_get() {
    let mut store = AggerStore::new();
    assert!(store.put_query(user_query(0, 10)));
    let got = store.get_query(0).unwrap();
    assert_eq!(got.id, 10);
    assert_eq!(got.sequence_number, 0);
}

#[test]
fn first_write_wins() {
    // a sequence number is never rewritten with a different query
    let mut store = AggerStore::new();
    assert!(store.put_query(user_query(0, 10)));
    assert!(!store.put_query(user_query(0, 99)));
    assert_eq!(store.get_query(0).unwrap().id, 10);
}

#[test]
fn proof_requires_query() {
    let mut store = AggerStore::new();
    assert_eq!(store.put_proof(0, Ok(vec![0xFE])), Err(StoreError::QueryMissing));
    store.put_query(user_query(0, 1));
    assert_eq!(store.put_proof(0, Ok(vec![0xFE])), Ok(()));
    let proof = store.get_proof(0).unwrap();
    assert!(proof.success);
    assert_eq!(proof.result, vec![0xFE]);
    assert!(!proof.submitted);
}

#[test]
fn proof_recorded_at_most_once() {
    let mut store = AggerStore::new();
    store.put_query(user_query(3, 1));
    assert_eq!(store.put_proof(3, Ok(vec![1])), Ok(()));
    assert_eq!(store.put_proof(3, Ok(vec![2])), Err(StoreError::ProofExists));
    assert_eq!(store.get_proof(3).unwrap().result, vec![1]);
}

#[test]
fn failed_outcome_recorded_with_message() {
    let mut store = AggerStore::new();
    store.put_query(user_query(0, 1));
    store.put_proof(0, Err(b"bad witness".to_vec())).unwrap();
    let proof = store.get_proof(0).unwrap();
    assert!(!proof.success);
    assert_eq!(proof.result, b"bad witness".to_vec());
    assert!(!proof.submitted);
}

#[test]
fn last_proved_is_maximum() {
    let mut store = AggerStore::new();
    for seq in [2u64, 0, 5, 1] {
        store.put_query(user_query(seq, seq));
    }
    store.put_proof(2, Ok(vec![])).unwrap();
    store.put_proof(0, Ok(vec![])).unwrap();
    assert_eq!(store.last_proved_event_number(), Some(2));
    store.put_proof(5, Ok(vec![])).unwrap();
    assert_eq!(store.last_proved_event_number(), Some(5));
    let last_seen = store.last_seen_event().unwrap();
    assert_eq!(last_seen.sequence_number, 5);
}

#[test]
fn address_length_is_checked() {
    assert!(AccountAddress::from_bytes(vec![0; 32]).is_ok());
    assert_eq!(
        AccountAddress::from_bytes(vec![0; 31]),
        Err(DecodeError::BadAddressLength)
    );
}
