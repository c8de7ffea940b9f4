use agger::ingest::{EventRecord, LedgerModel};
use agger::pipeline::{resume_start, run_pipeline, ProverModel, RegistryEntry, RegistryModel};
use agger::store::AggerStore;
use agger::types::{AccountAddress, Query};

fn registry_with_module() -> RegistryModel {
    RegistryModel {
        entries: vec![RegistryEntry {
            module_address: vec![0x10; 32],
            module_name: b"m".to_vec(),
            module_bytes: vec![0xAA],
            function_defs: vec![b"init".to_vec(), b"f".to_vec()],
            config: vec![0x01],
            vk: vec![0x02],
            param: vec![0x03],
        }],
    }
}

fn ledger_event(version: u64, id: u64, function: &[u8]) -> EventRecord {
    EventRecord {
        version,
        user: AccountAddress { bytes: vec![0x20; 32] },
        id,
        query: Query {
            module_address: vec![0x10; 32],
            module_name: b"m".to_vec(),
            function_name: function.to_vec(),
            deadline: 0,
            args: vec![],
            ty_args: vec![],
            success: None,
            result: None,
        },
    }
}

#[test]
fn resume_points() {
    assert_eq!(resume_start(None), 0);
    assert_eq!(resume_start(Some(0)), 1);
    assert_eq!(resume_start(Some(41)), 42);
}

#[test]
fn cold_start_single_query() {
    // empty store; one event at position 0; prover succeeds with 0xFE
    let mut store = AggerStore::new();
    let ledger = LedgerModel { events: vec![ledger_event(77, 5, b"f")] };
    let registry = registry_with_module();
    let prover = ProverModel { outcomes: vec![Ok(vec![0xFE])] };
    let report = run_pipeline(&mut store, &ledger, &registry, &prover);
    assert_eq!(report.start, 0);
    assert_eq!(report.processed, vec![0]);
    let q = store.get_query(0).unwrap();
    assert_eq!(q.id, 5);
    assert_eq!(q.version, 77);
    let p = store.get_proof(0).unwrap();
    assert!(p.success);
    assert_eq!(p.result, vec![0xFE]);
    assert!(!p.submitted);
}

#[test]
fn failure_path_records_message_and_advances() {
    // the proving stub rejects event 0; its failure is durable and
    // ingestion goes on to event 1
    let mut store = AggerStore::new();
    let ledger = LedgerModel {
        events: vec![ledger_event(77, 5, b"f"), ledger_event(78, 6, b"f")],
    };
    let registry = registry_with_module();
    let prover = ProverModel {
        outcomes: vec![Err(b"bad witness".to_vec()), Ok(vec![0x01])],
    };
    let report = run_pipeline(&mut store, &ledger, &registry, &prover);
    assert_eq!(report.processed, vec![0, 1]);
    let p0 = store.get_proof(0).unwrap();
    assert!(!p0.success);
    assert_eq!(p0.result, b"bad witness".to_vec());
    assert!(!p0.submitted);
    assert!(store.get_proof(1).unwrap().success);
}

#[test]
fn restart_resumes_after_last_proof() {
    // first run proves event 0; the restarted run sees events 0 and 1
    // and only works through event 1
    let mut store = AggerStore::new();
    let registry = registry_with_module();
    let ledger1 = LedgerModel { events: vec![ledger_event(77, 5, b"f")] };
    let prover = ProverModel { outcomes: vec![Ok(vec![0xFE]), Ok(vec![0xFD])] };
    let first = run_pipeline(&mut store, &ledger1, &registry, &prover);
    assert_eq!(first.processed, vec![0]);

    let ledger2 = LedgerModel {
        events: vec![ledger_event(77, 5, b"f"), ledger_event(80, 6, b"f")],
    };
    let second = run_pipeline(&mut store, &ledger2, &registry, &prover);
    assert_eq!(second.start, 1);
    assert_eq!(second.processed, vec![1]);
    // event 0 was not re-proved: its first outcome is still there
    assert_eq!(store.get_proof(0).unwrap().result, vec![0xFE]);
    assert_eq!(store.get_proof(1).unwrap().result, vec![0xFD]);
}

#[test]
fn unresolved_query_is_passed_over() {
    // the registry knows no function of that name: nothing is written
    // for event 0, while event 1 is proved
    let mut store = AggerStore::new();
    let ledger = LedgerModel {
        events: vec![ledger_event(1, 1, b"missing"), ledger_event(2, 2, b"f")],
    };
    let registry = registry_with_module();
    let prover = ProverModel { outcomes: vec![Ok(vec![]), Ok(vec![0x44])] };
    let report = run_pipeline(&mut store, &ledger, &registry, &prover);
    assert_eq!(report.processed, vec![0, 1]);
    assert!(store.get_query(0).is_none());
    assert!(store.get_proof(0).is_none());
    assert_eq!(store.get_proof(1).unwrap().result, vec![0x44]);
}

#[test]
fn query_before_proof_throughout() {
    let mut store = AggerStore::new();
    let ledger = LedgerModel {
        events: vec![ledger_event(1, 1, b"f"), ledger_event(2, 2, b"f")],
    };
    let registry = registry_with_module();
    let prover = ProverModel { outcomes: vec![Ok(vec![]), Err(b"x".to_vec())] };
    run_pipeline(&mut store, &ledger, &registry, &prover);
    for seq in 0..2u64 {
        if store.get_proof(seq).is_some() {
            assert!(store.get_query(seq).is_some());
        }
    }
}
