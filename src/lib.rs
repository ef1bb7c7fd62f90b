//! A store of named WebAssembly modules, the linking plan that loads a
//! module with the modules it imports, and the marshalling of JSON numbers
//! into Wasm arguments.
pub mod record;
pub mod store;
pub mod local_db;
pub mod marshal;
pub mod pending;
pub mod requests;
