use agger::config::{
    parse_aptos_url, parse_entry_function_section, split_function_id, AddressTable, AptosBaseUrl,
    ConfigError,
};
use agger::types::{AccountAddress, CircuitTomlConfig};
use agger::witness::{check_ident, prepare_witness_input, WitnessError};
use agger::types::{Query, UserQuery};

fn toml_section() -> CircuitTomlConfig {
    CircuitTomlConfig {
        max_step_row: Some(4096),
        stack_ops_num: None,
        locals_ops_num: None,
        global_ops_num: None,
        max_frame_index: None,
        max_locals_size: None,
        max_stack_size: None,
        word_size: Some(32),
        args: Some(vec!["1u64".to_string()]),
        ty_args: None,
    }
}

#[test]
fn splits_three_parts() {
    let (a, m, f) = split_function_id(&b"std::counter::add".to_vec()).unwrap();
    assert_eq!(a, b"std".to_vec());
    assert_eq!(m, b"counter".to_vec());
    assert_eq!(f, b"add".to_vec());
}

#[test]
fn third_part_keeps_extra_separators() {
    let (a, m, f) = split_function_id(&b"a::b::c::d".to_vec()).unwrap();
    assert_eq!(a, b"a".to_vec());
    assert_eq!(m, b"b".to_vec());
    assert_eq!(f, b"c::d".to_vec());
}

#[test]
fn too_few_separators_is_rejected() {
    assert_eq!(
        split_function_id(&b"only::one".to_vec()),
        Err(ConfigError::BadFunctionId)
    );
    assert_eq!(
        split_function_id(&b"none".to_vec()),
        Err(ConfigError::BadFunctionId)
    );
}

#[test]
fn section_resolves_alias_and_carries_knobs() {
    let addresses = AddressTable {
        entries: vec![(b"std".to_vec(), AccountAddress { bytes: vec![0x0A; 32] })],
    };
    let c = parse_entry_function_section(&b"std::m::f".to_vec(), toml_section(), &addresses)
        .unwrap();
    assert_eq!(c.entry_module_address.bytes, vec![0x0A; 32]);
    assert_eq!(c.entry_module_name, b"m".to_vec());
    assert_eq!(c.entry_function, b"f".to_vec());
    assert_eq!(c.circuit_config.max_step_row, Some(4096));
    assert_eq!(c.circuit_config.word_size, Some(32));
    assert_eq!(c.demo_run_config.args, Some(vec!["1u64".to_string()]));
    assert_eq!(c.demo_run_config.ty_args, None);
}

#[test]
fn unknown_alias_is_rejected() {
    let addresses = AddressTable { entries: vec![] };
    assert_eq!(
        parse_entry_function_section(&b"std::m::f".to_vec(), toml_section(), &addresses),
        Err(ConfigError::UnknownAddress)
    );
}

#[test]
fn identifier_rules() {
    assert!(check_ident(&b"counter".to_vec()));
    assert!(check_ident(&b"_private2".to_vec()));
    assert!(check_ident(&b"A9_b".to_vec()));
    assert!(!check_ident(&b"".to_vec()));
    assert!(!check_ident(&b"_".to_vec()));
    assert!(!check_ident(&b"9lives".to_vec()));
    assert!(!check_ident(&b"has space".to_vec()));
    assert!(!check_ident(&b"has::colon".to_vec()));
}

fn resolved(module_address: Vec<u8>, module_name: &[u8], function_name: &[u8]) -> UserQuery {
    UserQuery {
        version: 1,
        sequence_number: 0,
        user: AccountAddress { bytes: vec![1; 32] },
        id: 0,
        query: Query {
            module_address,
            module_name: module_name.to_vec(),
            function_name: function_name.to_vec(),
            deadline: 0,
            args: vec![b"1u64".to_vec()],
            ty_args: vec![],
            success: None,
            result: None,
        },
    }
}

#[test]
fn witness_input_from_valid_query() {
    let q = resolved(vec![2; 32], b"m", b"f");
    let w = prepare_witness_input(&q).unwrap();
    assert_eq!(w.entry_module_address.bytes, vec![2; 32]);
    assert_eq!(w.entry_module_name, b"m".to_vec());
    assert_eq!(w.entry_function_name, b"f".to_vec());
    assert_eq!(w.args, vec![b"1u64".to_vec()]);
    assert!(w.ty_args.is_empty());
}

#[test]
fn witness_input_rejects_bad_fields() {
    assert_eq!(
        prepare_witness_input(&resolved(vec![2; 31], b"m", b"f")),
        Err(WitnessError::BadAddressLength)
    );
    assert_eq!(
        prepare_witness_input(&resolved(vec![2; 32], b"9m", b"f")),
        Err(WitnessError::BadModuleName)
    );
    assert_eq!(
        prepare_witness_input(&resolved(vec![2; 32], b"m", b"_")),
        Err(WitnessError::BadFunctionName)
    );
}

#[test]
fn endpoint_presets_and_custom() {
    assert_eq!(parse_aptos_url(&b"mainnet".to_vec()), AptosBaseUrl::Mainnet);
    assert_eq!(parse_aptos_url(&b"  DevNet\n".to_vec()), AptosBaseUrl::Devnet);
    assert_eq!(parse_aptos_url(&b"testnet".to_vec()), AptosBaseUrl::Testnet);
    assert_eq!(
        parse_aptos_url(&b" http://localhost:8080 ".to_vec()),
        AptosBaseUrl::Custom(b"http://localhost:8080".to_vec())
    );
    assert_eq!(parse_aptos_url(&b"".to_vec()), AptosBaseUrl::Custom(vec![]));
}
