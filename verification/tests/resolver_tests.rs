use agger::resolver::{
    build_get_module_request, build_material_requests, extend_vk_with_func_info, finalize_vp,
    find_function_index, locate_entry_function, module_response, split_vk, vec_bytes_eq,
    ResolveError, ViewArg, ViewFunction,
};

#[test]
fn hex_arguments_are_prefixed_lowercase() {
    // fails if the wrapper handed its argument back unchanged
    let req = build_get_module_request(&vec![0xAA, 0xBB, 0x01], &vec![0x6D]);
    assert!(matches!(req.function, ViewFunction::GetModule));
    assert_eq!(req.args.len(), 2);
    match &req.args[0] {
        ViewArg::Hex(s) => assert_eq!(s, "0xaabb01"),
        _ => panic!("expected a hex argument"),
    }
    match &req.args[1] {
        ViewArg::Hex(s) => assert_eq!(s, "0x6d"),
        _ => panic!("expected a hex argument"),
    }
}

#[test]
fn hex_argument_of_empty_bytes() {
    let req = build_get_module_request(&vec![], &vec![]);
    match &req.args[0] {
        ViewArg::Hex(s) => assert_eq!(s, "0x"),
        _ => panic!("expected a hex argument"),
    }
}

#[test]
fn material_requests_carry_index() {
    let (config, vk, param) = build_material_requests(&vec![0x01], &vec![0x02], 3);
    assert!(matches!(config.function, ViewFunction::GetConfig));
    assert!(matches!(vk.function, ViewFunction::GetVk));
    assert!(matches!(param.function, ViewFunction::GetParam));
    for req in [&config, &vk, &param] {
        assert_eq!(req.args.len(), 3);
        match &req.args[2] {
            ViewArg::Index(i) => assert_eq!(*i, 3),
            _ => panic!("expected the function index"),
        }
    }
}

#[test]
fn function_index_is_first_match() {
    let defs = vec![b"init".to_vec(), b"f".to_vec(), b"f".to_vec()];
    assert_eq!(find_function_index(&defs, &b"f".to_vec()), Some(1));
    assert_eq!(find_function_index(&defs, &b"init".to_vec()), Some(0));
    assert_eq!(find_function_index(&defs, &b"absent".to_vec()), None);
}

#[test]
fn vk_extension_round_trips() {
    let mut vk = vec![0xDE, 0xAD];
    extend_vk_with_func_info(&mut vk, 0x0102);
    assert_eq!(vk, vec![0xDE, 0xAD, 0x02, 0x01]);
    let (body, index) = split_vk(&vk).unwrap();
    assert_eq!(body, vec![0xDE, 0xAD]);
    assert_eq!(index, 0x0102);
}

#[test]
fn vk_too_short_to_split() {
    assert!(split_vk(&vec![0x01]).is_none());
}

#[test]
fn module_response_absent_is_not_found() {
    assert_eq!(module_response(None), Err(ResolveError::ModuleNotFound));
    assert_eq!(module_response(Some(vec![0xAA])), Ok(vec![0xAA]));
}

#[test]
fn finalize_names_the_missing_view() {
    assert_eq!(
        finalize_vp(None, Some(vec![]), Some(vec![])),
        Err(ResolveError::MissingConfig)
    );
    assert_eq!(
        finalize_vp(Some(vec![]), None, Some(vec![])),
        Err(ResolveError::MissingVk)
    );
    assert_eq!(
        finalize_vp(Some(vec![]), Some(vec![]), None),
        Err(ResolveError::MissingParam)
    );
    let vp = finalize_vp(Some(vec![1]), Some(vec![2]), Some(vec![3])).unwrap();
    assert_eq!(vp.config, vec![1]);
    assert_eq!(vp.vk, vec![2]);
    assert_eq!(vp.param, vec![3]);
}

#[test]
fn byte_equality() {
    assert!(vec_bytes_eq(&vec![1, 2], &vec![1, 2]));
    assert!(!vec_bytes_eq(&vec![1, 2], &vec![1, 3]));
    assert!(!vec_bytes_eq(&vec![1], &vec![1, 2]));
}

#[test]
fn locate_reports_missing_function() {
    let defs = vec![b"init".to_vec(), b"f".to_vec()];
    assert_eq!(locate_entry_function(&defs, &b"f".to_vec()), Ok(1));
    assert_eq!(
        locate_entry_function(&defs, &b"absent".to_vec()),
        Err(ResolveError::FunctionNotFound)
    );
}
