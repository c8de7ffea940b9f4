use agger::codec::{
    decode_bytes_field, decode_bytes_list, decode_new_query_event, decode_proving_result,
    decode_queries_resource, decode_query_record, decode_u64_le, decode_uleb, decode_user_query,
    encode_bytes_field, encode_bytes_list, encode_new_query_event, encode_proving_result,
    encode_queries_resource, encode_query, encode_u16_le, encode_u64_le, encode_uleb,
    encode_user_query,
};
use agger::types::{
    AccountAddress, DecodeError, NewQueryEvent, Queries, Query, Table, TableWithLength, UserQuery,
    UserQueryProvingResult,
};

fn addr(byte: u8) -> AccountAddress {
    AccountAddress { bytes: vec![byte; 32] }
}

fn sample_query() -> Query {
    Query {
        module_address: vec![0x11; 32],
        module_name: b"counter".to_vec(),
        function_name: b"add".to_vec(),
        deadline: 100,
        args: vec![b"1u64".to_vec(), b"2u64".to_vec()],
        ty_args: vec![b"u64".to_vec()],
        success: Some(true),
        result: Some(vec![0xAB, 0xCD]),
    }
}

#[test]
fn u64_le_matches_reference_encoding() {
    for n in [0u64, 1, 255, 256, 0xDEAD_BEEF, u64::MAX] {
        assert_eq!(encode_u64_le(n), bcs::to_bytes(&n).unwrap());
    }
}

#[test]
fn u64_le_round_trip() {
    for n in [0u64, 7, 0x0102_0304_0506_0708, u64::MAX] {
        let bytes = encode_u64_le(n);
        let (back, consumed) = decode_u64_le(&bytes, 0).unwrap();
        assert_eq!(back, n);
        assert_eq!(consumed, 8);
    }
}

#[test]
fn u64_le_truncated() {
    let bytes = vec![1, 2, 3];
    assert_eq!(decode_u64_le(&bytes, 0), Err(DecodeError::Truncated));
}

#[test]
fn u16_le_encoding() {
    assert_eq!(encode_u16_le(0x0201), vec![0x01, 0x02]);
    assert_eq!(encode_u16_le(0xFFFF), vec![0xFF, 0xFF]);
}

#[test]
fn uleb_matches_reference_length_prefix() {
    // the length prefix of a byte vector is a ULEB128 length
    for len in [0usize, 1, 127, 128, 300, 16384] {
        let v = vec![0u8; len];
        let reference = bcs::to_bytes(&v).unwrap();
        let mine = encode_uleb(len as u64);
        assert_eq!(&reference[..mine.len()], &mine[..]);
    }
}

#[test]
fn uleb_round_trip() {
    for n in [0u64, 1, 127, 128, 255, 16383, 16384, 0xFFFF_FFFF] {
        let bytes = encode_uleb(n);
        let (back, consumed) = decode_uleb(&bytes, 0).unwrap();
        assert_eq!(back, n);
        assert_eq!(consumed, bytes.len());
    }
}

#[test]
fn uleb_rejects_non_canonical() {
    // 0x80 0x00 would decode to 0, but 0 has the one-byte form
    let bytes = vec![0x80, 0x00];
    assert!(decode_uleb(&bytes, 0).is_err());
}

#[test]
fn uleb_rejects_over_u32() {
    // five continuation bytes put the value beyond u32
    let bytes = vec![0x80, 0x80, 0x80, 0x80, 0x80, 0x01];
    assert_eq!(decode_uleb(&bytes, 0), Err(DecodeError::LengthOverflow));
}

#[test]
fn bytes_field_round_trip() {
    let payload = vec![9u8, 8, 7];
    let enc = encode_bytes_field(&payload);
    assert_eq!(enc, bcs::to_bytes(&payload).unwrap());
    let (back, consumed) = decode_bytes_field(&enc, 0).unwrap();
    assert_eq!(back, payload);
    assert_eq!(consumed, enc.len());
}

#[test]
fn bytes_list_round_trip() {
    let list = vec![vec![1u8, 2], vec![], vec![3u8]];
    let enc = encode_bytes_list(&list);
    assert_eq!(enc, bcs::to_bytes(&list).unwrap());
    let (back, consumed) = decode_bytes_list(&enc, 0).unwrap();
    assert_eq!(back, list);
    assert_eq!(consumed, enc.len());
}

#[test]
fn query_matches_reference_encoding() {
    let q = sample_query();
    let reference = bcs::to_bytes(&(
        q.module_address.clone(),
        q.module_name.clone(),
        q.function_name.clone(),
        q.deadline,
        q.args.clone(),
        q.ty_args.clone(),
        q.success,
        q.result.clone(),
    ))
    .unwrap();
    assert_eq!(encode_query(&q), reference);
}

#[test]
fn query_round_trip() {
    let q = sample_query();
    let enc = encode_query(&q);
    let back = decode_query_record(&enc).unwrap();
    assert_eq!(back, q);
}

#[test]
fn query_rejects_trailing_bytes() {
    let mut enc = encode_query(&sample_query());
    enc.push(0);
    assert_eq!(decode_query_record(&enc), Err(DecodeError::TrailingBytes));
}

#[test]
fn query_rejects_bad_option_tag() {
    let mut enc = encode_query(&sample_query());
    // the success field is the third byte from the end here: flip the
    // result option tag instead, which is right after the ty_args
    let q2 = Query { success: None, result: None, ..sample_query() };
    let mut enc2 = encode_query(&q2);
    let last = enc2.len() - 1;
    enc2[last] = 2;
    assert_eq!(decode_query_record(&enc2), Err(DecodeError::InvalidOptionTag));
    let _ = enc;
    // and a bad boolean inside Some(success)
    let q3 = Query { result: None, ..sample_query() };
    let mut enc3 = encode_query(&q3);
    let len3 = enc3.len();
    enc3[len3 - 2] = 7; // the success boolean byte
    assert_eq!(decode_query_record(&enc3), Err(DecodeError::InvalidBool));
}

#[test]
fn new_query_event_round_trip() {
    let e = NewQueryEvent { user: addr(0x42), id: 9 };
    let enc = encode_new_query_event(&e);
    let mut reference = vec![0x42u8; 32];
    reference.extend_from_slice(&9u64.to_le_bytes());
    assert_eq!(enc, reference);
    assert_eq!(decode_new_query_event(&enc).unwrap(), e);
}

#[test]
fn new_query_event_truncated() {
    let bytes = vec![0u8; 31];
    assert!(decode_new_query_event(&bytes).is_err());
}

#[test]
fn queries_resource_round_trip() {
    let v = Queries {
        query_counter: 3,
        queries: TableWithLength { inner: Table { handle: addr(0x77) }, length: 3 },
    };
    let enc = encode_queries_resource(&v);
    let mut reference = 3u64.to_le_bytes().to_vec();
    reference.extend_from_slice(&[0x77; 32]);
    reference.extend_from_slice(&3u64.to_le_bytes());
    assert_eq!(enc, reference);
    assert_eq!(decode_queries_resource(&enc).unwrap(), v);
}

#[test]
fn user_query_round_trip() {
    let u = UserQuery {
        version: 1000,
        sequence_number: 5,
        user: addr(0x21),
        id: 6,
        query: sample_query(),
    };
    let enc = encode_user_query(&u);
    let q = &u.query;
    let reference = bcs::to_bytes(&(
        1000u64,
        5u64,
        [0x21u8; 32],
        6u64,
        (
            q.module_address.clone(),
            q.module_name.clone(),
            q.function_name.clone(),
            q.deadline,
            q.args.clone(),
            q.ty_args.clone(),
            q.success,
            q.result.clone(),
        ),
    ))
    .unwrap();
    assert_eq!(enc, reference);
    assert_eq!(decode_user_query(&enc).unwrap(), u);
}

#[test]
fn proving_result_round_trip() {
    let p = UserQueryProvingResult { success: true, result: vec![0xFE], submitted: false };
    let enc = encode_proving_result(&p);
    let reference = bcs::to_bytes(&(true, vec![0xFEu8], false)).unwrap();
    assert_eq!(enc, reference);
    assert_eq!(decode_proving_result(&enc).unwrap(), p);
}
