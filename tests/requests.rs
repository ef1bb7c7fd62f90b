use wasm_exec_api::local_db::LocalDB;
use wasm_exec_api::requests::{decode_wasm_hex, plan_execution, register_module, RequestError};
use wasm_exec_api::store::{StoreError, WasmStore};

const RUN_WASM_HEX: &str =
    "0061736d0100000001060160017f017f030201000707010372756e00000a0601040020000b";

fn temporary_db() -> LocalDB {
    LocalDB::temporary().unwrap()
}

#[test]
fn hex_of_either_case_decodes() {
    assert_eq!(decode_wasm_hex("0a1B"), Ok(vec![0x0a, 0x1b]));
    assert_eq!(decode_wasm_hex(""), Ok(vec![]));
}

#[test]
fn bad_hex_is_refused() {
    assert_eq!(decode_wasm_hex("abc"), Err(RequestError::BadHex));
    assert_eq!(decode_wasm_hex("zz"), Err(RequestError::BadHex));
}

#[test]
fn register_then_plan_named() {
    let mut db = temporary_db();
    register_module(&mut db, "utils", RUN_WASM_HEX, &[]).unwrap();
    let module = db.load_module("utils").unwrap();
    assert_eq!(module.code, hex::decode(RUN_WASM_HEX).unwrap());
}

#[test]
fn register_twice_is_a_conflict() {
    let mut db = temporary_db();
    register_module(&mut db, "utils", RUN_WASM_HEX, &[]).unwrap();
    assert_eq!(
        register_module(&mut db, "utils", RUN_WASM_HEX, &[]),
        Err(RequestError::Store(StoreError::AlreadyExists("utils".to_string())))
    );
}

#[test]
fn register_with_dangling_dependency() {
    let mut db = temporary_db();
    assert_eq!(
        register_module(&mut db, "link", RUN_WASM_HEX, &["utils".to_string()]),
        Err(RequestError::Store(StoreError::MissingDependency("utils".to_string())))
    );
    assert_eq!(db.contains_module("link"), Ok(false));
}

#[test]
fn register_with_bad_hex_stores_nothing() {
    let mut db = temporary_db();
    assert_eq!(register_module(&mut db, "m", "0g", &[]), Err(RequestError::BadHex));
    assert_eq!(db.contains_module("m"), Ok(false));
}

#[test]
fn linked_execution_plans_each_host_module() {
    let mut db = temporary_db();
    register_module(&mut db, "utils", RUN_WASM_HEX, &[]).unwrap();
    let (code, plans) = plan_execution(&db, "00ff", &["utils".to_string()]).unwrap();
    assert_eq!(code, vec![0x00, 0xff]);
    assert_eq!(plans.len(), 1);
    assert_eq!(plans[0].len(), 1);
    assert_eq!(plans[0][0].name, "utils");
}

#[test]
fn execution_with_unknown_host_module() {
    let db = temporary_db();
    assert_eq!(
        plan_execution(&db, "00", &["utils".to_string()]).err(),
        Some(RequestError::Store(StoreError::NotFound("utils".to_string())))
    );
}

#[test]
fn execution_without_host_modules_needs_no_store() {
    let db = temporary_db();
    let (code, plans) = plan_execution(&db, "0061", &[]).unwrap();
    assert_eq!(code, vec![0x00, 0x61]);
    assert!(plans.is_empty());
}
