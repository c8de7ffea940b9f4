use agger::codec::{encode_new_query_event, encode_queries_resource, encode_query};
use agger::ingest::{
    assemble_user_query, collect_available, decode_event_payload, decode_queries_bytes,
    ingest_step, recover_after_error, table_key_digits, EventRecord, EventResponse, IngestStep,
    LedgerError, LedgerModel,
};
use agger::types::{AccountAddress, NewQueryEvent, Queries, Query, Table, TableWithLength};

fn query(name: &[u8]) -> Query {
    Query {
        module_address: vec![7; 32],
        module_name: b"m".to_vec(),
        function_name: name.to_vec(),
        deadline: 0,
        args: vec![],
        ty_args: vec![],
        success: None,
        result: None,
    }
}

fn event(version: u64, id: u64) -> EventRecord {
    EventRecord {
        version,
        user: AccountAddress { bytes: vec![9; 32] },
        id,
        query: query(b"f"),
    }
}

#[test]
fn event_advances_cursor_and_numbers_query() {
    let (step, next) = ingest_step(4, EventResponse::Event(event(100, 8)));
    match step {
        IngestStep::Produce(q) => {
            assert_eq!(q.sequence_number, 4);
            assert_eq!(q.version, 100);
            assert_eq!(q.id, 8);
        }
        _ => panic!("expected a produced query"),
    }
    assert_eq!(next, 5);
}

#[test]
fn empty_poll_waits_in_place() {
    let (step, next) = ingest_step(4, EventResponse::NotReady);
    assert!(matches!(step, IngestStep::Wait));
    assert_eq!(next, 4);
}

#[test]
fn error_reported_without_advancing() {
    let err = LedgerError { code: 500 };
    let (step, next) = ingest_step(4, EventResponse::Failed(err));
    match step {
        IngestStep::Report(e) => assert_eq!(e, err),
        _ => panic!("expected the error reported"),
    }
    assert_eq!(next, 4);
}

#[test]
fn transient_error_then_recovery_yields_same_sequence() {
    let err = LedgerError { code: 500 };
    let (first, second) = recover_after_error(3, err, event(50, 1));
    assert!(matches!(first.0, IngestStep::Report(_)));
    assert_eq!(first.1, 3);
    match second.0 {
        IngestStep::Produce(q) => assert_eq!(q.sequence_number, 3),
        _ => panic!("expected the event produced after recovery"),
    }
    assert_eq!(second.1, 4);
}

#[test]
fn gap_free_ingestion_from_zero() {
    let ledger = LedgerModel { events: vec![event(10, 0), event(11, 1), event(12, 2)] };
    let out = collect_available(&ledger, 0);
    let seqs: Vec<u64> = out.iter().map(|q| q.sequence_number).collect();
    assert_eq!(seqs, vec![0, 1, 2]);
}

#[test]
fn gap_free_ingestion_resumes_midway() {
    let ledger = LedgerModel { events: vec![event(10, 0), event(11, 1), event(12, 2)] };
    let out = collect_available(&ledger, 2);
    let seqs: Vec<u64> = out.iter().map(|q| q.sequence_number).collect();
    assert_eq!(seqs, vec![2]);
    assert!(collect_available(&ledger, 3).is_empty());
    assert!(collect_available(&ledger, 10).is_empty());
}

#[test]
fn event_payload_decodes() {
    let e = NewQueryEvent { user: AccountAddress { bytes: vec![3; 32] }, id: 12 };
    let payload = encode_new_query_event(&e);
    assert_eq!(decode_event_payload(&payload).unwrap(), e);
}

#[test]
fn queries_resource_yields_handle() {
    let v = Queries {
        query_counter: 1,
        queries: TableWithLength {
            inner: Table { handle: AccountAddress { bytes: vec![0x55; 32] } },
            length: 1,
        },
    };
    let bytes = encode_queries_resource(&v);
    assert_eq!(decode_queries_bytes(&bytes).unwrap(), vec![0x55; 32]);
}

#[test]
fn table_value_assembles_user_query() {
    let q = query(b"target");
    let bytes = encode_query(&q);
    let e = NewQueryEvent { user: AccountAddress { bytes: vec![1; 32] }, id: 4 };
    let uq = assemble_user_query(90, 7, e, &bytes).unwrap();
    assert_eq!(uq.version, 90);
    assert_eq!(uq.sequence_number, 7);
    assert_eq!(uq.id, 4);
    assert_eq!(uq.query, q);
}

#[test]
fn table_value_decode_failure_surfaces() {
    let e = NewQueryEvent { user: AccountAddress { bytes: vec![1; 32] }, id: 4 };
    assert!(assemble_user_query(90, 7, e, &vec![0xFF]).is_err());
}

#[test]
fn table_keys_are_decimal_strings() {
    assert_eq!(table_key_digits(0), b"0".to_vec());
    assert_eq!(table_key_digits(7), b"7".to_vec());
    assert_eq!(table_key_digits(10), b"10".to_vec());
    assert_eq!(table_key_digits(90217), b"90217".to_vec());
    assert_eq!(
        table_key_digits(u64::MAX),
        b"18446744073709551615".to_vec()
    );
}
