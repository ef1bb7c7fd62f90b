use wasm_exec_api::pending::{contains_from_reply, load_from_reply, AwaitingResponses, DhtReply};
use wasm_exec_api::record::encode_module;
use wasm_exec_api::store::StoreError;

#[test]
fn one_query_serves_concurrent_callers() {
    let mut t = AwaitingResponses::new();
    assert!(t.request(b"k", 1));
    assert!(!t.request(b"k", 2));
    assert!(t.request(b"other", 3));
    assert_eq!(t.deliver(b"k"), vec![1, 2]);
    // the entry is gone: a later request queries again
    assert!(t.request(b"k", 4));
    assert_eq!(t.deliver(b"other"), vec![3]);
}

#[test]
fn delivery_without_callers_is_dropped() {
    let mut t = AwaitingResponses::new();
    assert_eq!(t.deliver(b"k"), Vec::<u64>::new());
}

#[test]
fn cancelled_caller_is_not_answered() {
    let mut t = AwaitingResponses::new();
    assert!(t.request(b"k", 1));
    assert!(!t.request(b"k", 2));
    t.cancel(b"k", 1);
    assert_eq!(t.deliver(b"k"), vec![2]);
}

#[test]
fn last_cancel_cleans_the_entry() {
    let mut t = AwaitingResponses::new();
    assert!(t.request(b"k", 1));
    t.cancel(b"k", 1);
    assert!(t.request(b"k", 2));
}

#[test]
fn load_reply_outcomes() {
    let bytes = encode_module(&[7], &["u".to_string()]);
    let m = load_from_reply("m", DhtReply::Record(bytes)).unwrap();
    assert_eq!(m.code, vec![7]);
    assert_eq!(m.host_modules, vec!["u".to_string()]);
    assert_eq!(
        load_from_reply("m", DhtReply::TimedOut).err(),
        Some(StoreError::NotFound("m".to_string()))
    );
    assert_eq!(load_from_reply("m", DhtReply::Dropped).err(), Some(StoreError::Transport));
    assert_eq!(
        load_from_reply("m", DhtReply::Record(vec![1])).err(),
        Some(StoreError::Codec("m".to_string()))
    );
}

#[test]
fn contains_reply_outcomes() {
    assert_eq!(contains_from_reply(DhtReply::Record(vec![])), Ok(true));
    assert_eq!(contains_from_reply(DhtReply::TimedOut), Ok(false));
    assert_eq!(contains_from_reply(DhtReply::Dropped), Err(StoreError::Transport));
}
