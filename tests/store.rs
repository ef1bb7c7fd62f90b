use wasm_exec_api::local_db::LocalDB;
use wasm_exec_api::store::{link_plan, store_wasm_module, StoreError, WasmStore};

const RUN_WASM_HEX: &str =
    "0061736d0100000001060160017f017f030201000707010372756e00000a0601040020000b";

fn temporary_db() -> LocalDB {
    LocalDB::temporary().unwrap()
}

fn names(v: &[&str]) -> Vec<String> {
    v.iter().map(|s| s.to_string()).collect()
}

#[test]
fn utils_store_load() {
    let mut db = temporary_db();
    let code = hex::decode(RUN_WASM_HEX).unwrap();

    assert!(link_plan(&db, "utils").is_err());

    // Trying to load with dependency module that doesn't exist
    assert!(store_wasm_module(&mut db, "test", &code, &names(&["utils"])).is_err());

    // Store and load utils
    store_wasm_module(&mut db, "utils", &code, &[]).unwrap();
    assert!(link_plan(&db, "utils").is_ok());

    // Shouldn't be able to overwrite existing module
    assert!(store_wasm_module(&mut db, "utils", &code, &[]).is_err());

    // Should be able to store link with host module of now stored "utils"
    store_wasm_module(&mut db, "link", &code, &names(&["utils"])).unwrap();
    assert!(link_plan(&db, "link").is_ok());
}

#[test]
fn mod_store_load() {
    let mut db = temporary_db();
    let code = hex::decode(RUN_WASM_HEX).unwrap();

    assert!(link_plan(&db, "utils").is_err());
    assert!(store_wasm_module(&mut db, "test", &code, &names(&["utils"])).is_err());
    store_wasm_module(&mut db, "utils", &code, &[]).unwrap();
    assert!(link_plan(&db, "utils").is_ok());
    assert!(store_wasm_module(&mut db, "utils", &code, &[]).is_err());
    store_wasm_module(&mut db, "link", &code, &names(&["utils"])).unwrap();
    assert!(link_plan(&db, "link").is_ok());
}

#[test]
fn second_put_fails_and_first_record_stays() {
    let mut db = temporary_db();
    store_wasm_module(&mut db, "m", &[1, 2, 3], &[]).unwrap();
    store_wasm_module(&mut db, "other", &[9], &names(&["m"])).unwrap();
    assert_eq!(
        store_wasm_module(&mut db, "m", &[4, 5], &[]),
        Err(StoreError::AlreadyExists("m".to_string()))
    );
    assert_eq!(
        db.put_module("m", &[4, 5], &[]),
        Err(StoreError::AlreadyExists("m".to_string()))
    );
    let module = db.load_module("m").unwrap();
    assert_eq!(module.code, vec![1, 2, 3]);
    assert!(module.host_modules.is_empty());
}

#[test]
fn dangling_dependency_is_refused() {
    let mut db = temporary_db();
    let code = hex::decode(RUN_WASM_HEX).unwrap();
    assert_eq!(
        store_wasm_module(&mut db, "link", &code, &names(&["utils"])),
        Err(StoreError::MissingDependency("utils".to_string()))
    );
    assert_eq!(db.contains_module("link"), Ok(false));
}

#[test]
fn first_missing_dependency_is_reported() {
    let mut db = temporary_db();
    store_wasm_module(&mut db, "b", &[0], &[]).unwrap();
    assert_eq!(
        store_wasm_module(&mut db, "x", &[0], &names(&["b", "c", "d"])),
        Err(StoreError::MissingDependency("c".to_string()))
    );
}

#[test]
fn missing_module_is_not_found() {
    let db = temporary_db();
    assert_eq!(db.load_module("nothing").err(), Some(StoreError::NotFound("nothing".to_string())));
    assert_eq!(
        link_plan(&db, "nothing").err(),
        Some(StoreError::NotFound("nothing".to_string()))
    );
}

#[test]
fn plan_lists_dependencies_first() {
    let mut db = temporary_db();
    store_wasm_module(&mut db, "a", &[1], &[]).unwrap();
    store_wasm_module(&mut db, "b", &[2], &[]).unwrap();
    store_wasm_module(&mut db, "c", &[3], &names(&["a", "b"])).unwrap();
    store_wasm_module(&mut db, "d", &[4], &names(&["c", "a"])).unwrap();
    let plan = link_plan(&db, "d").unwrap();
    let order: Vec<&str> = plan.iter().map(|s| s.name.as_str()).collect();
    assert_eq!(order, vec!["a", "b", "c", "a", "d"]);
    assert_eq!(plan[2].code, vec![3]);
    assert_eq!(plan[4].host_modules, names(&["c", "a"]));
}

#[test]
fn duplicate_import_is_reported() {
    let mut db = temporary_db();
    store_wasm_module(&mut db, "u", &[1], &[]).unwrap();
    store_wasm_module(&mut db, "v", &[2], &names(&["u", "u"])).unwrap();
    assert_eq!(link_plan(&db, "v").err(), Some(StoreError::DuplicateImport("u".to_string())));
}
