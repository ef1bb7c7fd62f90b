use wasm_exec_api::marshal::{params_to_wasm, MarshalError, Number, ValueType, WasmValue};

#[test]
fn arity_mismatch_is_reported() {
    let r = params_to_wasm(vec![], &[ValueType::I32]);
    assert_eq!(r, Err(MarshalError::ArityMismatch { got: 0, want: 1 }));
    let r = params_to_wasm(vec![Number::PosInt(1), Number::PosInt(2)], &[ValueType::I64]);
    assert_eq!(r, Err(MarshalError::ArityMismatch { got: 2, want: 1 }));
}

#[test]
fn integer_arguments() {
    let r = params_to_wasm(
        vec![Number::PosInt(2), Number::NegInt(-5), Number::PosInt(7)],
        &[ValueType::I32, ValueType::I64, ValueType::V128],
    );
    assert_eq!(r, Ok(vec![WasmValue::I32(2), WasmValue::I64(-5), WasmValue::V128(7)]));
}

#[test]
fn i32_takes_low_bits() {
    let r = params_to_wasm(vec![Number::PosInt(0x1_0000_0005)], &[ValueType::I32]);
    assert_eq!(r, Ok(vec![WasmValue::I32(5)]));
    let r = params_to_wasm(vec![Number::PosInt(0xffff_ffff)], &[ValueType::I32]);
    assert_eq!(r, Ok(vec![WasmValue::I32(-1)]));
}

#[test]
fn integer_out_of_i64_range_is_a_mismatch() {
    let r = params_to_wasm(vec![Number::PosInt(u64::MAX)], &[ValueType::I64]);
    assert_eq!(r, Err(MarshalError::TypeMismatch { index: 0, want: ValueType::I64 }));
}

#[test]
fn float_is_not_an_integer() {
    let r = params_to_wasm(
        vec![Number::PosInt(1), Number::Float(1.5f64.to_bits())],
        &[ValueType::I32, ValueType::I32],
    );
    assert_eq!(r, Err(MarshalError::TypeMismatch { index: 1, want: ValueType::I32 }));
}

#[test]
fn negative_is_not_a_v128() {
    let r = params_to_wasm(vec![Number::NegInt(-1)], &[ValueType::V128]);
    assert_eq!(r, Err(MarshalError::TypeMismatch { index: 0, want: ValueType::V128 }));
}

#[test]
fn float_parameters_keep_the_number() {
    let n = Number::Float(2.5f64.to_bits());
    let r = params_to_wasm(vec![n, Number::PosInt(3)], &[ValueType::F32, ValueType::F64]);
    assert_eq!(r, Ok(vec![WasmValue::F32(n), WasmValue::F64(Number::PosInt(3))]));
}

#[test]
fn success_has_one_value_per_parameter() {
    let r = params_to_wasm(vec![Number::PosInt(1); 4], &[ValueType::I64; 4]).unwrap();
    assert_eq!(r.len(), 4);
}
