//! What the service does for a request before the Wasm engine takes over:
//! decoding the hex text of module code, registering a module, and planning
//! the linking of an execution.
use crate::record::names_view;
use crate::store::{
    closure_clean, link_plan, plan_error, plan_post, register_post, steps_view, store_wasm_module, LinkStep,
    StoreError, WasmStore,
};
use vstd::prelude::*;
use vstd::utf8::encode_utf8;

verus! {

#[verifier::external_type_specification]
#[verifier::external_body]
pub struct ExFromHexError(hex::FromHexError);

/// What went wrong with a request.
#[derive(Debug, Clone, PartialEq, Eq)]
pub enum RequestError {
    /// The module code is not hex text of an even length.
    BadHex,
    /// The store or the linking plan failed.
    Store(StoreError),
}

/// The value of the hex digit `b`, of either case.
pub open spec fn hex_digit(b: u8) -> Option<u8> {
    if 48 <= b <= 57 {
        Some((b - 48) as u8)
    } else if 97 <= b <= 102 {
        Some((b - 87) as u8)
    } else if 65 <= b <= 70 {
        Some((b - 55) as u8)
    } else {
        None
    }
}

/// `t` is hex text: an even number of hex digits.
pub open spec fn hex_valid(t: Seq<u8>) -> bool {
    t.len() % 2 == 0 && forall|i: int| 0 <= i < t.len() ==> (#[trigger] hex_digit(t[i])) is Some
}

/// The bytes that hex text `t` stands for, two digits each, high digit
/// first.
pub open spec fn hex_decoded(t: Seq<u8>) -> Seq<u8> {
    Seq::new(
        t.len() / 2,
        |i: int| (hex_digit(t[2 * i])->Some_0 * 16 + hex_digit(t[2 * i + 1])->Some_0) as u8,
    )
}

/// Relies on `hex::decode`: it accepts exactly the text of an even number
/// of hex digits, of either case, and turns each pair into one byte.
#[verifier::external_body]
fn hex_decode(s: &str) -> (r: Result<Vec<u8>, hex::FromHexError>)
    ensures
        r is Ok <==> hex_valid(encode_utf8(s@)),
        r is Ok ==> r->Ok_0@ == hex_decoded(encode_utf8(s@)),
{
    hex::decode(s)
}

/// The module code that the hex text `wasm_hex` stands for.
pub fn decode_wasm_hex(wasm_hex: &str) -> (r: Result<Vec<u8>, RequestError>)
    ensures
        match r {
            Ok(code) => hex_valid(encode_utf8(wasm_hex@)) && code@ == hex_decoded(
                encode_utf8(wasm_hex@),
            ),
            Err(e) => !hex_valid(encode_utf8(wasm_hex@)) && e == RequestError::BadHex,
        },
{
    match hex_decode(wasm_hex) {
        Ok(code) => Ok(code),
        Err(_) => Err(RequestError::BadHex),
    }
}

/// Registers the module whose code is the hex text `wasm_hex`. Text that is
/// not hex leaves the store as it was.
pub fn register_module<S: WasmStore>(
    db: &mut S,
    module_name: &str,
    wasm_hex: &str,
    host_modules: &[String],
) -> (r: Result<(), RequestError>)
    ensures
        !hex_valid(encode_utf8(wasm_hex@)) ==> r == Err::<(), RequestError>(RequestError::BadHex)
            && final(db).modules() == old(db).modules(),
        hex_valid(encode_utf8(wasm_hex@)) ==> match r {
            Ok(()) => register_post(
                old(db).modules(),
                final(db).modules(),
                module_name@,
                hex_decoded(encode_utf8(wasm_hex@)),
                names_view(host_modules@),
                Ok(()),
            ),
            Err(RequestError::Store(e)) => register_post(
                old(db).modules(),
                final(db).modules(),
                module_name@,
                hex_decoded(encode_utf8(wasm_hex@)),
                names_view(host_modules@),
                Err(e),
            ),
            Err(_) => false,
        },
{
    let code = match decode_wasm_hex(wasm_hex) {
        Ok(code) => code,
        Err(e) => {
            return Err(e);
        },
    };
    match store_wasm_module(db, module_name, code.as_slice(), host_modules) {
        Ok(()) => Ok(()),
        Err(e) => Err(RequestError::Store(e)),
    }
}

/// The code of an ad-hoc execution and, for each host module in order, the
/// plan that links it. A store error names a module reached from one of the
/// host modules; with clean host modules only the backend can fail.
pub fn plan_execution<S: WasmStore>(db: &S, wasm_hex: &str, host_modules: &[String]) -> (r: Result<
    (Vec<u8>, Vec<Vec<LinkStep>>),
    RequestError,
>)
    ensures
        match r {
            Ok((code, plans)) => hex_valid(encode_utf8(wasm_hex@)) && code@ == hex_decoded(
                encode_utf8(wasm_hex@),
            ) && plans@.len() == host_modules@.len() && forall|i: int|
                0 <= i < plans@.len() ==> plan_post(
                    db.modules(),
                    host_modules@[i]@,
                    steps_view(#[trigger] plans@[i]@),
                ),
            Err(RequestError::BadHex) => !hex_valid(encode_utf8(wasm_hex@)),
            Err(RequestError::Store(e)) => hex_valid(encode_utf8(wasm_hex@)) && exists|i: int|
                0 <= i < host_modules@.len() && plan_error(
                    db.modules(),
                    #[trigger] host_modules@[i]@,
                    e,
                ),
        },
        hex_valid(encode_utf8(wasm_hex@)) && (forall|i: int|
            0 <= i < host_modules@.len() ==> closure_clean(db.modules(), #[trigger] host_modules@[i]@))
            && !(r matches Err(RequestError::Store(StoreError::Transport))) ==> r is Ok,
{
    let code = match decode_wasm_hex(wasm_hex) {
        Ok(code) => code,
        Err(e) => {
            return Err(e);
        },
    };
    let mut plans: Vec<Vec<LinkStep>> = Vec::new();
    let mut i: usize = 0;
    while i < host_modules.len()
        invariant
            i <= host_modules@.len(),
            plans@.len() == i,
            hex_valid(encode_utf8(wasm_hex@)),
            forall|j: int|
                0 <= j < i ==> plan_post(
                    db.modules(),
                    host_modules@[j]@,
                    steps_view(#[trigger] plans@[j]@),
                ),
        decreases host_modules@.len() - i,
    {
        match link_plan(db, host_modules[i].as_str()) {
            Ok(steps) => plans.push(steps),
            Err(e) => {
                assert(host_modules@[i as int]@ == host_modules[i as int]@);
                return Err(RequestError::Store(e));
            },
        }
        i += 1;
    }
    Ok((code, plans))
}

} // verus!
