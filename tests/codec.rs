use wasm_exec_api::record::{decode_module, encode_module, CodecError, WasmModuleRef};

fn names(v: &[&str]) -> Vec<String> {
    v.iter().map(|s| s.to_string()).collect()
}

#[test]
fn mod_wasm_module_symmetric_serialize() {
    let code: &[u8] = b"test code";
    let host_modules = names(&["one", "two"]);
    let serialized = encode_module(code, &host_modules);
    let wasm_mod_deser = decode_module(&serialized).unwrap();
    assert_eq!(wasm_mod_deser.code, code);
    assert_eq!(wasm_mod_deser.host_modules, host_modules);
}

#[test]
fn utils_wasm_module_symmetric_serialize() {
    let host_modules = names(&["one", "two"]);
    let wasm_ref = WasmModuleRef {
        code: b"test code",
        host_modules: &host_modules,
    };
    let serialized = wasm_ref.to_bytes();
    let wasm_mod_deser = decode_module(&serialized).unwrap();
    assert_eq!(wasm_mod_deser.code, wasm_ref.code);
    assert_eq!(wasm_mod_deser.host_modules, wasm_ref.host_modules);
}

#[test]
fn encoding_matches_serde_cbor_tuple() {
    let code: Vec<u8> = (0u8..=255).collect();
    let host_modules = names(&["utils", "ünïcödé", ""]);
    let ours = encode_module(&code, &host_modules);
    let theirs = serde_cbor::to_vec(&(&code, &host_modules)).unwrap();
    assert_eq!(ours, theirs);
}

#[test]
fn decodes_serde_cbor_output() {
    let code: Vec<u8> = vec![0, 23, 24, 255, 7];
    let host_modules = names(&["a", "bc"]);
    let bytes = serde_cbor::to_vec(&(&code, &host_modules)).unwrap();
    let module = decode_module(&bytes).unwrap();
    assert_eq!(module.code, code);
    assert_eq!(module.host_modules, host_modules);
}

#[test]
fn encodes_exact_bytes() {
    let bytes = encode_module(&[1, 200], &names(&["ab"]));
    assert_eq!(bytes, vec![0x82, 0x82, 0x01, 0x18, 200, 0x81, 0x62, b'a', b'b']);
}

#[test]
fn round_trip_empty_record() {
    let bytes = encode_module(&[], &[]);
    assert_eq!(bytes, vec![0x82, 0x80, 0x80]);
    let module = decode_module(&bytes).unwrap();
    assert!(module.code.is_empty());
    assert!(module.host_modules.is_empty());
}

#[test]
fn round_trip_long_code() {
    let code: Vec<u8> = (0..70000u32).map(|i| (i % 251) as u8).collect();
    let host_modules = names(&["x"; 30]);
    let bytes = encode_module(&code, &host_modules);
    let module = decode_module(&bytes).unwrap();
    assert_eq!(module.code, code);
    assert_eq!(module.host_modules, host_modules);
}

#[test]
fn rejects_trailing_bytes() {
    let mut bytes = encode_module(&[1, 2], &names(&["a"]));
    bytes.push(0);
    assert_eq!(decode_module(&bytes).err(), Some(CodecError));
}

#[test]
fn rejects_truncated_bytes() {
    let bytes = encode_module(&[1, 2], &names(&["abc"]));
    assert!(decode_module(&bytes[..bytes.len() - 1]).is_err());
    assert!(decode_module(&[]).is_err());
}

#[test]
fn rejects_non_shortest_header() {
    // the outer array length 2 written with a one-byte argument
    assert!(decode_module(&[0x98, 0x02, 0x80, 0x80]).is_err());
}

#[test]
fn rejects_invalid_utf8_name() {
    assert!(decode_module(&[0x82, 0x80, 0x81, 0x61, 0xff]).is_err());
}

#[test]
fn rejects_code_item_above_a_byte() {
    assert!(decode_module(&[0x82, 0x81, 0x19, 0x01, 0x00, 0x80]).is_err());
}
