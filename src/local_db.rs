//! The store kept in an embedded sled database, one key per module name.
use crate::record::{decode_module, encode_module, WasmModule};
use crate::store::{StoreError, StoreView, WasmStore};
use vstd::prelude::*;
use vstd::utf8::*;

verus! {

#[verifier::external_type_specification]
#[verifier::external_body]
pub struct ExDb(sled::Db);

#[verifier::external_type_specification]
#[verifier::external_body]
pub struct ExSledError(sled::Error);

/// The key-value pairs that a sled database holds.
pub uninterp spec fn db_contents(db: sled::Db) -> Map<Seq<u8>, Seq<u8>>;

/// Relies on `sled::Tree::get`: the value stored under the key, or `None`
/// where the key is absent.
#[verifier::external_body]
fn db_get(db: &sled::Db, key: &[u8]) -> (r: Result<Option<Vec<u8>>, sled::Error>)
    ensures
        r matches Ok(Some(v)) ==> db_contents(*db).contains_key(key@) && v@ == db_contents(
            *db,
        )[key@],
        r matches Ok(None) ==> !db_contents(*db).contains_key(key@),
{
    match db.get(key) {
        Ok(Some(v)) => Ok(Some(v.to_vec())),
        Ok(None) => Ok(None),
        Err(e) => Err(e),
    }
}

/// Relies on `sled::Tree::contains_key`: whether a value is stored under the
/// key.
#[verifier::external_body]
fn db_contains(db: &sled::Db, key: &[u8]) -> (r: Result<bool, sled::Error>)
    ensures
        r matches Ok(b) ==> b == db_contents(*db).contains_key(key@),
{
    db.contains_key(key)
}

/// Relies on `sled::Tree::compare_and_swap` with no expected value: it
/// inserts the value where the key is absent, reports `Ok(false)` and
/// changes nothing where it is present, and never overwrites.
#[verifier::external_body]
fn db_insert_new(db: &mut sled::Db, key: &[u8], value: Vec<u8>) -> (r: Result<bool, sled::Error>)
    ensures
        db_contents(*final(db)) == db_contents(*old(db)) || (!db_contents(*old(db)).contains_key(
            key@,
        ) && db_contents(*final(db)) == db_contents(*old(db)).insert(key@, value@)),
        r matches Ok(true) ==> !db_contents(*old(db)).contains_key(key@) && db_contents(*final(db))
            == db_contents(*old(db)).insert(key@, value@),
        r matches Ok(false) ==> db_contents(*old(db)).contains_key(key@) && db_contents(*final(db))
            == db_contents(*old(db)),
{
    match db.compare_and_swap(key, None as Option<&[u8]>, Some(value)) {
        Ok(Ok(())) => Ok(true),
        Ok(Err(_)) => Ok(false),
        Err(e) => Err(e),
    }
}

/// Relies on `sled::open`: opens, or creates, the database at `path`.
#[verifier::external_body]
fn db_open(path: &str) -> (r: Result<sled::Db, sled::Error>) {
    sled::open(path)
}

/// Relies on `sled::Config::temporary`: a new database in a fresh temporary
/// location, which holds nothing.
#[verifier::external_body]
fn db_temporary() -> (r: Result<sled::Db, sled::Error>)
    ensures
        r is Ok ==> db_contents(r->Ok_0).dom() == Set::<Seq<u8>>::empty(),
{
    sled::Config::new().temporary(true).open()
}

/// The records of a sled database, keyed by the UTF-8 form of each name.
pub open spec fn by_name(contents: Map<Seq<u8>, Seq<u8>>) -> StoreView {
    Map::new(
        |k: Seq<char>| contents.contains_key(encode_utf8(k)),
        |k: Seq<char>| contents[encode_utf8(k)],
    )
}

proof fn lemma_by_name_insert(contents: Map<Seq<u8>, Seq<u8>>, name: Seq<char>, v: Seq<u8>)
    ensures
        by_name(contents.insert(encode_utf8(name), v)) == by_name(contents).insert(name, v),
{
    let a = by_name(contents.insert(encode_utf8(name), v));
    let b = by_name(contents).insert(name, v);
    assert forall|k: Seq<char>| #[trigger] a.dom().contains(k) == b.dom().contains(k) by {
        encode_utf8_decode_utf8(k);
        encode_utf8_decode_utf8(name);
    }
    assert(a.dom() =~= b.dom());
    assert forall|k: Seq<char>| #[trigger] a.dom().contains(k) implies a[k] == b[k] by {
        encode_utf8_decode_utf8(k);
        encode_utf8_decode_utf8(name);
    }
    assert(a =~= b);
}

/// A module store in a sled database. It holds the only handle to the
/// database, so the records change only through its own methods.
pub struct LocalDB {
    db: sled::Db,
}

impl LocalDB {
    /// The store kept in the directory `path`, which lasts across runs.
    pub fn open(path: &str) -> (r: Result<LocalDB, StoreError>)
        ensures
            r is Err ==> r == Err::<LocalDB, StoreError>(StoreError::Transport),
    {
        match db_open(path) {
            Ok(db) => Ok(LocalDB { db }),
            Err(_) => Err(StoreError::Transport),
        }
    }

    /// An empty store in a temporary location, removed when it is dropped.
    pub fn temporary() -> (r: Result<LocalDB, StoreError>)
        ensures
            r matches Ok(s) ==> s.modules() == Map::<Seq<char>, Seq<u8>>::empty(),
            r is Err ==> r == Err::<LocalDB, StoreError>(StoreError::Transport),
    {
        match db_temporary() {
            Ok(db) => {
                let s = LocalDB { db };
                assert(s.modules() =~= Map::<Seq<char>, Seq<u8>>::empty());
                Ok(s)
            },
            Err(_) => Err(StoreError::Transport),
        }
    }
}

impl WasmStore for LocalDB {
    closed spec fn modules(&self) -> StoreView {
        by_name(db_contents(self.db))
    }

    fn load_module(&self, name: &str) -> (r: Result<WasmModule, StoreError>) {
        match db_get(&self.db, name.as_bytes()) {
            Ok(Some(bytes)) => match decode_module(bytes.as_slice()) {
                Ok(module) => Ok(module),
                Err(_) => Err(StoreError::Codec(name.to_string())),
            },
            Ok(None) => Err(StoreError::NotFound(name.to_string())),
            Err(_) => Err(StoreError::Transport),
        }
    }

    fn contains_module(&self, name: &str) -> (r: Result<bool, StoreError>) {
        match db_contains(&self.db, name.as_bytes()) {
            Ok(b) => Ok(b),
            Err(_) => Err(StoreError::Transport),
        }
    }

    fn put_module(&mut self, name: &str, code: &[u8], host_modules: &[String]) -> (r: Result<
        (),
        StoreError,
    >) {
        let value = encode_module(code, host_modules);
        proof {
            lemma_by_name_insert(db_contents(self.db), name@, value@);
        }
        match db_insert_new(&mut self.db, name.as_bytes(), value) {
            Ok(true) => Ok(()),
            Ok(false) => Err(StoreError::AlreadyExists(name.to_string())),
            Err(_) => Err(StoreError::Transport),
        }
    }
}

} // verus!
