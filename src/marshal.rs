//! Arguments for a Wasm call, made from untyped JSON numbers according to
//! the parameter types of the function called.
use vstd::prelude::*;

verus! {

/// The Wasm value types that a function signature lists.
#[derive(Debug, Clone, Copy, PartialEq, Eq, Structural)]
pub enum ValueType {
    I32,
    I64,
    F32,
    F64,
    V128,
}

/// A JSON number as a JSON parser holds it: a non-negative integer, a
/// negative integer, or a finite float given by its IEEE-754 bits.
#[derive(Debug, Clone, Copy, PartialEq, Eq, Structural)]
pub enum Number {
    PosInt(u64),
    NegInt(i64),
    Float(u64),
}

/// A Wasm argument. A float argument keeps the JSON number it was given
/// as; it is rounded to the float type where the call is made.
#[derive(Debug, Clone, Copy, PartialEq, Eq, Structural)]
pub enum WasmValue {
    I32(i32),
    I64(i64),
    F32(Number),
    F64(Number),
    V128(u128),
}

/// Why a list of JSON numbers does not fit a signature.
#[derive(Debug, Clone, Copy, PartialEq, Eq, Structural)]
pub enum MarshalError {
    /// `got` numbers were given for `want` parameters.
    ArityMismatch { got: usize, want: usize },
    /// The number at `index` cannot stand for a value of type `want`.
    TypeMismatch { index: usize, want: ValueType },
}

/// The number as an `i64`, where it is an integer in range.
pub open spec fn as_i64(n: Number) -> Option<i64> {
    match n {
        Number::PosInt(u) => if u <= i64::MAX {
            Some(u as i64)
        } else {
            None
        },
        Number::NegInt(i) => Some(i),
        Number::Float(_) => None,
    }
}

/// The value of type `t` that the number `n` stands for, if any. An `I32`
/// takes the low 32 bits of the number's `i64` value; a `V128` takes the
/// value that the number's text reads as when parsed as an unsigned 128-bit
/// integer, which only the text of a non-negative integer does.
pub open spec fn convert(n: Number, t: ValueType) -> Option<WasmValue> {
    match t {
        ValueType::I32 => match as_i64(n) {
            Some(i) => Some(WasmValue::I32(i as i32)),
            None => None,
        },
        ValueType::I64 => match as_i64(n) {
            Some(i) => Some(WasmValue::I64(i)),
            None => None,
        },
        ValueType::F32 => Some(WasmValue::F32(n)),
        ValueType::F64 => Some(WasmValue::F64(n)),
        ValueType::V128 => match n {
            Number::PosInt(u) => Some(WasmValue::V128(u as u128)),
            _ => None,
        },
    }
}

fn number_as_i64(n: Number) -> (r: Option<i64>)
    ensures
        r == as_i64(n),
{
    match n {
        Number::PosInt(u) => if u <= i64::MAX as u64 {
            Some(u as i64)
        } else {
            None
        },
        Number::NegInt(i) => Some(i),
        Number::Float(_) => None,
    }
}

fn convert_one(n: Number, t: ValueType) -> (r: Option<WasmValue>)
    ensures
        r == convert(n, t),
{
    match t {
        ValueType::I32 => match number_as_i64(n) {
            Some(i) => Some(WasmValue::I32(i as i32)),
            None => None,
        },
        ValueType::I64 => match number_as_i64(n) {
            Some(i) => Some(WasmValue::I64(i)),
            None => None,
        },
        ValueType::F32 => Some(WasmValue::F32(n)),
        ValueType::F64 => Some(WasmValue::F64(n)),
        ValueType::V128 => match n {
            Number::PosInt(u) => Some(WasmValue::V128(u as u128)),
            _ => None,
        },
    }
}

/// Converts the numbers to arguments for a function with parameter types
/// `types`: the counts must agree, and the first number that cannot stand
/// for its parameter's type is reported.
pub fn params_to_wasm(values: Vec<Number>, types: &[ValueType]) -> (r: Result<
    Vec<WasmValue>,
    MarshalError,
>)
    ensures
        r is Ok ==> values@.len() == types@.len(),
        values@.len() == types@.len() && (forall|i: int|
            0 <= i < values@.len() ==> #[trigger] convert(values@[i], types@[i]) is Some) ==> r is Ok,
        values@.len() != types@.len() <==> r == Err::<Vec<WasmValue>, MarshalError>(
            MarshalError::ArityMismatch { got: values@.len() as usize, want: types@.len() as usize },
        ),
        match r {
            Ok(args) => args@.len() == values@.len() && forall|i: int|
                0 <= i < args@.len() ==> convert(values@[i], types@[i]) == Some(#[trigger] args@[i]),
            Err(MarshalError::TypeMismatch { index, want }) => index < values@.len() && want
                == types@[index as int] && convert(values@[index as int], want) is None && forall|
                j: int,
            |
                0 <= j < index ==> #[trigger] convert(values@[j], types@[j]) is Some,
            Err(MarshalError::ArityMismatch { .. }) => values@.len() != types@.len(),
        },
{
    if values.len() != types.len() {
        return Err(MarshalError::ArityMismatch { got: values.len(), want: types.len() });
    }
    let mut out: Vec<WasmValue> = Vec::new();
    let mut i: usize = 0;
    while i < values.len()
        invariant
            values@.len() == types@.len(),
            i <= values@.len(),
            out@.len() == i,
            forall|j: int| 0 <= j < i ==> convert(values@[j], types@[j]) == Some(#[trigger] out@[j]),
        decreases values@.len() - i,
    {
        match convert_one(values[i], types[i]) {
            Some(v) => out.push(v),
            None => {
                assert forall|j: int| 0 <= j < i implies #[trigger] convert(
                    values@[j],
                    types@[j],
                ) is Some by {
                    assert(convert(values@[j], types@[j]) == Some(out@[j]));
                }
                return Err(MarshalError::TypeMismatch { index: i, want: types[i] });
            },
        }
        i += 1;
    }
    Ok(out)
}

} // verus!
