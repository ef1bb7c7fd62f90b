//! The decisions of the store kept in a distributed hash table: the table
//! of callers waiting for a record, where callers asking for a key that is
//! already being fetched wait for the same reply so that one query serves
//! them all, and what a caller makes of the way its wait ended.
use crate::record::{decode_module, parse_record, same_bytes, WasmModule};
use crate::store::StoreError;
use vstd::prelude::*;
use vstd::slice::slice_to_vec;

verus! {

/// The callers waiting for the record under one key.
pub struct PendingKey {
    pub key: Vec<u8>,
    pub waiters: Vec<u64>,
}

/// The callers waiting under `key` in `es`: those of the last entry for it.
pub open spec fn waiting_in(es: Seq<PendingKey>, key: Seq<u8>) -> Seq<u64>
    decreases es.len(),
{
    if es.len() == 0 {
        Seq::empty()
    } else if es.last().key@ == key {
        es.last().waiters@
    } else {
        waiting_in(es.drop_last(), key)
    }
}

/// No key has two entries, and no entry is empty.
pub open spec fn entries_wf(es: Seq<PendingKey>) -> bool {
    &&& forall|i: int, j: int| 0 <= i < j < es.len() ==> es[i].key@ != es[j].key@
    &&& forall|i: int| 0 <= i < es.len() ==> (#[trigger] es[i]).waiters@.len() > 0
}

proof fn lemma_absent(es: Seq<PendingKey>, key: Seq<u8>)
    requires
        forall|i: int| 0 <= i < es.len() ==> (#[trigger] es[i]).key@ != key,
    ensures
        waiting_in(es, key) == Seq::<u64>::empty(),
    decreases es.len(),
{
    if es.len() > 0 {
        assert(es.last() == es[es.len() - 1]);
        let d = es.drop_last();
        assert forall|i: int| 0 <= i < d.len() implies (#[trigger] d[i]).key@ != key by {
            assert(d[i] == es[i]);
        }
        lemma_absent(d, key);
    }
}

proof fn lemma_found(es: Seq<PendingKey>, i: int)
    requires
        entries_wf(es),
        0 <= i < es.len(),
    ensures
        waiting_in(es, es[i].key@) == es[i].waiters@,
    decreases es.len(),
{
    if i < es.len() - 1 {
        let d = es.drop_last();
        assert(d[i] == es[i]);
        assert(es.last() == es[es.len() - 1]);
        assert(entries_wf(d)) by {
            assert forall|a: int, b: int| 0 <= a < b < d.len() implies d[a].key@ != d[b].key@ by {
                assert(d[a] == es[a] && d[b] == es[b]);
            }
            assert forall|a: int| 0 <= a < d.len() implies (#[trigger] d[a]).waiters@.len() > 0 by {
                assert(d[a] == es[a]);
            }
        }
        lemma_found(d, i);
    }
}

proof fn lemma_remove(es: Seq<PendingKey>, i: int, k: Seq<u8>)
    requires
        entries_wf(es),
        0 <= i < es.len(),
    ensures
        waiting_in(es.remove(i), k) == if k == es[i].key@ {
            Seq::<u64>::empty()
        } else {
            waiting_in(es, k)
        },
        entries_wf(es.remove(i)),
    decreases es.len(),
{
    let r = es.remove(i);
    assert forall|a: int, b: int| 0 <= a < b < r.len() implies r[a].key@ != r[b].key@ by {
        let a0 = if a < i { a } else { a + 1 };
        let b0 = if b < i { b } else { b + 1 };
        assert(r[a] == es[a0] && r[b] == es[b0]);
    }
    assert forall|a: int| 0 <= a < r.len() implies (#[trigger] r[a]).waiters@.len() > 0 by {
        let a0 = if a < i { a } else { a + 1 };
        assert(r[a] == es[a0]);
    }
    if k == es[i].key@ {
        assert forall|a: int| 0 <= a < r.len() implies (#[trigger] r[a]).key@ != k by {
            let a0 = if a < i { a } else { a + 1 };
            assert(r[a] == es[a0]);
        }
        lemma_absent(r, k);
    } else if i == es.len() - 1 {
        assert(r =~= es.drop_last());
    } else {
        let d = es.drop_last();
        assert(d[i] == es[i]);
        assert(entries_wf(d)) by {
            assert forall|a: int, b: int| 0 <= a < b < d.len() implies d[a].key@ != d[b].key@ by {
                assert(d[a] == es[a] && d[b] == es[b]);
            }
            assert forall|a: int| 0 <= a < d.len() implies (#[trigger] d[a]).waiters@.len() > 0 by {
                assert(d[a] == es[a]);
            }
        }
        lemma_remove(d, i, k);
        assert(r.drop_last() =~= d.remove(i));
        assert(r.last() == es.last());
    }
}

/// Callers waiting for records, by key.
pub struct AwaitingResponses {
    entries: Vec<PendingKey>,
}

impl AwaitingResponses {
    /// The callers waiting for the record under `key`, in order of arrival.
    pub closed spec fn waiting(&self, key: Seq<u8>) -> Seq<u64> {
        waiting_in(self.entries@, key)
    }

    pub closed spec fn wf(&self) -> bool {
        entries_wf(self.entries@)
    }

    /// An empty table.
    pub fn new() -> (r: AwaitingResponses)
        ensures
            r.wf(),
            forall|k: Seq<u8>| #[trigger] r.waiting(k) == Seq::<u64>::empty(),
    {
        AwaitingResponses { entries: Vec::new() }
    }

    fn find(&self, key: &[u8]) -> (r: Option<usize>)
        requires
            self.wf(),
        ensures
            match r {
                Some(i) => i < self.entries@.len() && self.entries@[i as int].key@ == key@,
                None => self.waiting(key@) == Seq::<u64>::empty(),
            },
    {
        let mut i: usize = 0;
        while i < self.entries.len()
            invariant
                i <= self.entries@.len(),
                forall|j: int| 0 <= j < i ==> (#[trigger] self.entries@[j]).key@ != key@,
            decreases self.entries@.len() - i,
        {
            if same_bytes(self.entries[i].key.as_slice(), key) {
                return Some(i);
            }
            i += 1;
        }
        proof {
            lemma_absent(self.entries@, key@);
        }
        None
    }

    /// Records that caller `waiter` waits for the record under `key`.
    /// Returns whether a query for the key must be sent: only when no
    /// caller was waiting for it already.
    pub fn request(&mut self, key: &[u8], waiter: u64) -> (query: bool)
        requires
            old(self).wf(),
        ensures
            final(self).wf(),
            query == (old(self).waiting(key@).len() == 0),
            final(self).waiting(key@) == old(self).waiting(key@).push(waiter),
            forall|k: Seq<u8>| k != key@ ==> #[trigger] final(self).waiting(k) == old(self).waiting(k),
    {
        let ghost es = self.entries@;
        match self.find(key) {
            Some(i) => {
                proof {
                    lemma_found(es, i as int);
                }
                let mut entry = self.entries.remove(i);
                entry.waiters.push(waiter);
                let ghost r = self.entries@;
                proof {
                    assert(r == es.remove(i as int));
                    assert forall|k: Seq<u8>| #[trigger] waiting_in(r, k) == if k == key@ {
                        Seq::<u64>::empty()
                    } else {
                        waiting_in(es, k)
                    } by {
                        lemma_remove(es, i as int, k);
                    }
                    lemma_remove(es, i as int, key@);
                    assert forall|a: int| 0 <= a < r.len() implies (#[trigger] r[a]).key@ != key@ by {
                        let a0 = if a < i { a } else { a + 1 };
                        assert(r[a] == es[a0]);
                    }
                }
                self.entries.push(entry);
                proof {
                    let n = self.entries@;
                    assert(n.drop_last() =~= r);
                    assert(n.last() == entry);
                    assert forall|a: int, b: int| 0 <= a < b < n.len() implies n[a].key@
                        != n[b].key@ by {
                        if b == n.len() - 1 {
                            assert(n[a] == r[a]);
                        } else {
                            assert(n[a] == r[a] && n[b] == r[b]);
                        }
                    }
                    assert forall|a: int| 0 <= a < n.len() implies (#[trigger] n[a]).waiters@.len()
                        > 0 by {
                        if a < n.len() - 1 {
                            assert(n[a] == r[a]);
                        }
                    }
                    assert forall|k: Seq<u8>| k != key@ implies #[trigger] waiting_in(n, k)
                        == waiting_in(es, k) by {
                        assert(waiting_in(n, k) == waiting_in(r, k));
                    }
                }
                false
            },
            None => {
                let mut waiters: Vec<u64> = Vec::new();
                waiters.push(waiter);
                let entry = PendingKey { key: slice_to_vec(key), waiters };
                proof {
                    assert forall|a: int| 0 <= a < es.len() implies (#[trigger] es[a]).key@ != key@ by {
                        if es[a].key@ == key@ {
                            lemma_found(es, a);
                        }
                    }
                }
                self.entries.push(entry);
                proof {
                    let n = self.entries@;
                    assert(n.drop_last() =~= es);
                    assert(waiters@ =~= Seq::<u64>::empty().push(waiter));
                    assert forall|a: int, b: int| 0 <= a < b < n.len() implies n[a].key@
                        != n[b].key@ by {
                        if b == n.len() - 1 {
                            assert(n[a] == es[a]);
                        } else {
                            assert(n[a] == es[a] && n[b] == es[b]);
                        }
                    }
                    assert forall|a: int| 0 <= a < n.len() implies (#[trigger] n[a]).waiters@.len()
                        > 0 by {
                        if a < n.len() - 1 {
                            assert(n[a] == es[a]);
                        }
                    }
                    assert forall|k: Seq<u8>| k != key@ implies #[trigger] waiting_in(n, k)
                        == waiting_in(es, k) by {
                        assert(n.last().key@ == key@);
                    }
                }
                true
            },
        }
    }

    /// Takes out the callers waiting for the record under `key`, which has
    /// arrived: they all receive it, and a later request for the key sends a
    /// new query.
    pub fn deliver(&mut self, key: &[u8]) -> (waiters: Vec<u64>)
        requires
            old(self).wf(),
        ensures
            final(self).wf(),
            waiters@ == old(self).waiting(key@),
            final(self).waiting(key@) == Seq::<u64>::empty(),
            forall|k: Seq<u8>| k != key@ ==> #[trigger] final(self).waiting(k) == old(self).waiting(k),
    {
        let ghost es = self.entries@;
        match self.find(key) {
            Some(i) => {
                proof {
                    lemma_found(es, i as int);
                    lemma_remove(es, i as int, key@);
                    assert forall|k: Seq<u8>| #[trigger] waiting_in(es.remove(i as int), k) == if k
                        == key@ {
                        Seq::<u64>::empty()
                    } else {
                        waiting_in(es, k)
                    } by {
                        lemma_remove(es, i as int, k);
                    }
                }
                let entry = self.entries.remove(i);
                entry.waiters
            },
            None => Vec::new(),
        }
    }
}

impl AwaitingResponses {
    /// Takes caller `waiter` off the callers waiting under `key`, whose
    /// deadline has passed; a key that no caller waits for any longer
    /// leaves the table.
    pub fn cancel(&mut self, key: &[u8], waiter: u64)
        requires
            old(self).wf(),
        ensures
            final(self).wf(),
            final(self).waiting(key@) == old(self).waiting(key@).filter(|w: u64| w != waiter),
            forall|k: Seq<u8>| k != key@ ==> #[trigger] final(self).waiting(k) == old(self).waiting(k),
    {
        let ghost es = self.entries@;
        match self.find(key) {
            Some(i) => {
                proof {
                    lemma_found(es, i as int);
                    lemma_remove(es, i as int, key@);
                    assert forall|k: Seq<u8>| #[trigger] waiting_in(es.remove(i as int), k) == if k
                        == key@ {
                        Seq::<u64>::empty()
                    } else {
                        waiting_in(es, k)
                    } by {
                        lemma_remove(es, i as int, k);
                    }
                }
                let entry = self.entries.remove(i);
                let ghost r = self.entries@;
                let ghost old_waiters = entry.waiters@;
                let mut kept: Vec<u64> = Vec::new();
                let mut j: usize = 0;
                while j < entry.waiters.len()
                    invariant
                        j <= entry.waiters@.len(),
                        kept@ == entry.waiters@.subrange(0, j as int).filter(|w: u64| w != waiter),
                    decreases entry.waiters@.len() - j,
                {
                    let w = entry.waiters[j];
                    if w != waiter {
                        kept.push(w);
                    }
                    proof {
                        reveal(Seq::filter);
                        assert(entry.waiters@.subrange(0, j + 1).drop_last() =~= entry.waiters@.subrange(
                            0,
                            j as int,
                        ));
                    }
                    j += 1;
                }
                proof {
                    assert(entry.waiters@.subrange(0, j as int) =~= entry.waiters@);
                }
                if kept.len() > 0 {
                    let ghost kept_view = kept@;
                    proof {
                        assert forall|a: int| 0 <= a < r.len() implies (#[trigger] r[a]).key@
                            != key@ by {
                            let a0 = if a < i {
                                a
                            } else {
                                a + 1
                            };
                            assert(r[a] == es[a0]);
                        }
                    }
                    self.entries.push(PendingKey { key: entry.key, waiters: kept });
                    proof {
                        let n = self.entries@;
                        assert(n.drop_last() =~= r);
                        assert(n.last().key@ == key@);
                        assert(n.last().waiters@ == kept_view);
                        assert forall|a: int, b: int| 0 <= a < b < n.len() implies n[a].key@
                            != n[b].key@ by {
                            if b == n.len() - 1 {
                                assert(n[a] == r[a]);
                            } else {
                                assert(n[a] == r[a] && n[b] == r[b]);
                            }
                        }
                        assert forall|a: int| 0 <= a < n.len() implies (#[trigger] n[a]).waiters@.len()
                            > 0 by {
                            if a < n.len() - 1 {
                                assert(n[a] == r[a]);
                            }
                        }
                        assert forall|k: Seq<u8>| k != key@ implies #[trigger] waiting_in(n, k)
                            == waiting_in(es, k) by {
                            assert(waiting_in(n, k) == waiting_in(r, k));
                        }
                    }
                } else {
                    proof {
                        assert(kept@ =~= Seq::<u64>::empty());
                    }
                }
            },
            None => {
                proof {
                    reveal(Seq::filter);
                }
            },
        }
    }
}

/// How a wait for a record from the distributed hash table ended.
pub enum DhtReply {
    /// The record arrived with these bytes.
    Record(Vec<u8>),
    /// The deadline passed first.
    TimedOut,
    /// The reply channel was closed without an answer.
    Dropped,
}

/// The result of loading `name` from the distributed hash table, given how
/// the wait ended: a deadline that passes means the module is not found.
pub fn load_from_reply(name: &str, reply: DhtReply) -> (r: Result<WasmModule, StoreError>)
    ensures
        match reply {
            DhtReply::Record(bytes) => match parse_record(bytes@) {
                Some(rec) => r is Ok && r->Ok_0@ == rec,
                None => r matches Err(StoreError::Codec(n)) && n@ == name@,
            },
            DhtReply::TimedOut => r matches Err(StoreError::NotFound(n)) && n@ == name@,
            DhtReply::Dropped => r == Err::<WasmModule, StoreError>(StoreError::Transport),
        },
{
    match reply {
        DhtReply::Record(bytes) => match decode_module(bytes.as_slice()) {
            Ok(module) => Ok(module),
            Err(_) => Err(StoreError::Codec(name.to_string())),
        },
        DhtReply::TimedOut => Err(StoreError::NotFound(name.to_string())),
        DhtReply::Dropped => Err(StoreError::Transport),
    }
}

/// Whether the distributed hash table holds a record, given how the wait
/// ended: a deadline that passes counts as absent.
pub fn contains_from_reply(reply: DhtReply) -> (r: Result<bool, StoreError>)
    ensures
        match reply {
            DhtReply::Record(_) => r == Ok::<bool, StoreError>(true),
            DhtReply::TimedOut => r == Ok::<bool, StoreError>(false),
            DhtReply::Dropped => r == Err::<bool, StoreError>(StoreError::Transport),
        },
{
    match reply {
        DhtReply::Record(_) => Ok(true),
        DhtReply::TimedOut => Ok(false),
        DhtReply::Dropped => Err(StoreError::Transport),
    }
}

} // verus!
