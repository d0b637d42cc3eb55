//! The transaction coordinator and command scheduler.
//!
//! The coordinator turns a multi-key write set into an all-or-nothing
//! prewrite — on the first per-key failure it rolls the already-placed
//! locks back and reports that failure — and a `(start_ts, commit_ts)`
//! pair into a commit of every key prewritten under `start_ts`.  The
//! scheduler executes one command at a time against the store.
use vstd::prelude::*;

use crate::Command;
use crate::Error;
use crate::Value;
use crate::mvcc::EntryView;
use crate::mvcc::KindView;
use crate::mvcc::MvccStore;
use crate::mvcc::cleared_entry;
use crate::mvcc::committed_entry;
use crate::mvcc::get_res_view;
use crate::mvcc::get_spec;
use crate::mvcc::locked_entry;
use crate::mvcc::lookup;
use crate::mvcc::prewrite_outcome;
use crate::mvcc::scan_item_view;
use crate::mvcc::scan_spec;
use crate::mvcc::store_wf;

verus! {

/// The write succeeds as a single-key prewrite against store `s`.
pub open spec fn write_ok(s: Seq<EntryView>, w: crate::Write, ts: u64) -> bool {
    prewrite_outcome(lookup(s, w.key_spec()), ts) is Ok
}

/// The position of the first write of the set that a prewrite against
/// store `s` refuses; the set's length when every write is accepted.
pub open spec fn first_fail(s: Seq<EntryView>, ws: Seq<crate::Write>, ts: u64) -> int
    decreases ws.len(),
{
    if ws.len() == 0 {
        0
    } else if !write_ok(s, ws[0], ts) {
        0
    } else {
        1 + first_fail(s, ws.skip(1), ts)
    }
}

/// Some write of the set addresses key `k`.
pub open spec fn writes_contain(ws: Seq<crate::Write>, k: Seq<u8>) -> bool {
    exists|j: int| 0 <= j < ws.len() && (#[trigger] ws[j]).key_spec() == k
}

/// The operation the last write addressing key `k` stages.
pub open spec fn last_kind(ws: Seq<crate::Write>, k: Seq<u8>) -> KindView
    decreases ws.len(),
{
    if ws.len() == 0 {
        KindView::Lock
    } else if ws.last().key_spec() == k {
        ws.last().kind_spec()
    } else {
        last_kind(ws.drop_last(), k)
    }
}

/// `first_fail` is pinned by an accepted prefix and a refused witness.
pub proof fn lemma_first_fail_is(s: Seq<EntryView>, ws: Seq<crate::Write>, ts: u64, j: int)
    requires
        0 <= j <= ws.len(),
        forall|t: int| 0 <= t < j ==> write_ok(s, #[trigger] ws[t], ts),
        j < ws.len() ==> !write_ok(s, ws[j], ts),
    ensures
        first_fail(s, ws, ts) == j,
    decreases ws.len(),
{
    if ws.len() > 0 && j > 0 {
        assert(forall|t: int| 0 <= t < ws.skip(1).len() ==> #[trigger] ws.skip(1)[t] == ws[t + 1]);
        lemma_first_fail_is(s, ws.skip(1), ts, j - 1);
    }
}

/// The result the scheduler hands back for one executed command, shaped
/// after the command's kind.
pub enum CmdReply {
    /// Reply to a read: the visible value, if any.
    Value(Result<Option<Value>, Error>),
    /// Reply to a scan: the resolved entries in key order.
    Pairs(Vec<Result<crate::KvPair, Error>>),
    /// Reply to a prewrite or commit.
    Unit(Result<(), Error>),
}

/// The command scheduler: owns the store and executes one command at a
/// time, so that all commands are totally ordered.
pub struct Scheduler {
    store: MvccStore,
}

impl View for Scheduler {
    type V = Seq<EntryView>;

    closed spec fn view(&self) -> Seq<EntryView> {
        self.store@
    }
}

impl Scheduler {
    /// Well-formedness of the underlying store.
    pub open spec fn wf(&self) -> bool {
        store_wf(self@)
    }

    /// Creates a scheduler over an empty store.
    pub fn new() -> (s: Scheduler)
        ensures
            s.wf(),
            s@ == Seq::<EntryView>::empty(),
    {
        Scheduler { store: MvccStore::new() }
    }

    /// Snapshot read of one key.
    pub fn get(&self, key: &[u8], start_ts: u64) -> (r: Result<Option<Value>, Error>)
        requires
            self.wf(),
        ensures
            get_res_view(r) == get_spec(self@, key@, start_ts),
    {
        self.store.get(key, start_ts)
    }

    /// Snapshot scan from `start_key`, at most `limit` entries.
    pub fn scan(&self, start_key: &[u8], limit: usize, start_ts: u64) -> (r: Vec<
        Result<crate::KvPair, Error>,
    >)
        requires
            self.wf(),
        ensures
            r@.map_values(|x: Result<crate::KvPair, Error>| scan_item_view(x)) == scan_spec(
                self@,
                start_key@,
                limit as nat,
                start_ts,
            ),
    {
        self.store.scan(start_key, limit, start_ts)
    }

    /// Commits every key prewritten under `start_ts` at `commit_ts`.
    /// Keys without a matching pending lock are untouched, which makes
    /// repeating a commit a no-op.
    pub fn commit(&mut self, start_ts: u64, commit_ts: u64) -> (r: Result<(), Error>)
        requires
            old(self).wf(),
            start_ts < commit_ts,
        ensures
            final(self).wf(),
            r == Ok::<(), Error>(()),
            forall|k: Seq<u8>|
                lookup(final(self)@, k) == match lookup(old(self)@, k) {
                    Some(e) => Some(committed_entry(e, start_ts, commit_ts)),
                    None => None::<EntryView>,
                },
    {
        self.store.commit_txn(start_ts, commit_ts);
        Ok(())
    }

    /// All-or-nothing prewrite of a write set at `start_ts`: every key is
    /// locked with its staged operation, or none is — on the first
    /// refused key the locks already placed in this attempt are rolled
    /// back and that key's error is returned.
    pub fn prewrite(&mut self, writes: &Vec<crate::Write>, start_ts: u64) -> (r: Result<
        (),
        Error,
    >)
        requires
            old(self).wf(),
        ensures
            final(self).wf(),
            ({
                let s0 = old(self)@;
                let ws = writes@;
                let ff = first_fail(s0, ws, start_ts);
                &&& r == (if ff == ws.len() {
                    Ok::<(), Error>(())
                } else {
                    prewrite_outcome(lookup(s0, ws[ff].key_spec()), start_ts)
                })
                &&& (r is Ok ==> forall|k: Seq<u8>|
                    lookup(final(self)@, k) == (if writes_contain(ws, k) {
                        Some(locked_entry(lookup(s0, k), k, last_kind(ws, k), start_ts))
                    } else {
                        lookup(s0, k)
                    }))
                &&& (r is Err ==> forall|k: Seq<u8>|
                    lookup(final(self)@, k) == (if writes_contain(ws.take(ff), k) {
                        Some(cleared_entry(lookup(s0, k), k, start_ts))
                    } else {
                        lookup(s0, k)
                    }))
            }),
    {
        let ghost s0 = self@;
        let ghost ws = writes@;
        let mut i: usize = 0;
        proof {
            assert(ws.take(0) =~= Seq::<crate::Write>::empty());
        }
        while i < writes.len()
            invariant
                self.wf(),
                s0 == old(self)@,
                ws == writes@,
                i <= ws.len(),
                store_wf(s0),
                forall|t: int| 0 <= t < i ==> write_ok(s0, #[trigger] ws[t], start_ts),
                forall|k: Seq<u8>|
                    lookup(self@, k) == (if writes_contain(ws.take(i as int), k) {
                        Some(
                            locked_entry(
                                lookup(s0, k),
                                k,
                                last_kind(ws.take(i as int), k),
                                start_ts,
                            ),
                        )
                    } else {
                        lookup(s0, k)
                    }),
            decreases ws.len() - i,
        {
            let w = &writes[i];
            let ghost wk = w.key_spec();
            let ghost cur = self@;
            proof {
                assert(*w == ws[i as int]);
                if writes_contain(ws.take(i as int), wk) {
                    let t = choose|t: int|
                        0 <= t < i && (#[trigger] ws.take(i as int)[t]).key_spec() == wk;
                    assert(ws.take(i as int)[t] == ws[t]);
                    assert(write_ok(s0, ws[t], start_ts));
                    let le = locked_entry(lookup(s0, wk), wk, last_kind(ws.take(i as int), wk), start_ts);
                    assert(lookup(cur, wk) == Some(le));
                    assert(!crate::mvcc::has_conflict(le, start_ts)) by {
                        if crate::mvcc::has_conflict(le, start_ts) {
                            let c = choose|c: int|
                                0 <= c < le.writes.len() && (#[trigger] le.writes[c]).commit_ts
                                    >= start_ts;
                            match lookup(s0, wk) {
                                Some(e0) => {
                                    assert(le.writes == e0.writes);
                                    assert(crate::mvcc::has_conflict(e0, start_ts));
                                },
                                None => {},
                            }
                        }
                    }
                    assert(prewrite_outcome(lookup(cur, wk), start_ts) is Ok);
                    assert(prewrite_outcome(lookup(cur, wk), start_ts) == prewrite_outcome(
                        lookup(s0, wk),
                        start_ts,
                    ));
                } else {
                    assert(lookup(cur, wk) == lookup(s0, wk));
                }
            }
            let res = self.store.prewrite_key(w, start_ts);
            match res {
                Ok(()) => {
                    proof {
                        assert(write_ok(s0, ws[i as int], start_ts));
                        assert(ws.take(i as int + 1).last() == ws[i as int]);
                        assert(ws.take(i as int + 1).drop_last() =~= ws.take(i as int));
                        assert forall|k: Seq<u8>|
                            lookup(self@, k) == (if writes_contain(ws.take(i as int + 1), k) {
                                Some(
                                    locked_entry(
                                        lookup(s0, k),
                                        k,
                                        last_kind(ws.take(i as int + 1), k),
                                        start_ts,
                                    ),
                                )
                            } else {
                                lookup(s0, k)
                            }) by {
                            if k == wk {
                                assert(writes_contain(ws.take(i as int + 1), k)) by {
                                    assert(ws.take(i as int + 1)[i as int].key_spec() == wk);
                                }
                                assert(last_kind(ws.take(i as int + 1), k) == ws[i as int].kind_spec());
                            } else {
                                assert(writes_contain(ws.take(i as int + 1), k) == writes_contain(
                                    ws.take(i as int),
                                    k,
                                )) by {
                                    if writes_contain(ws.take(i as int + 1), k) {
                                        let t = choose|t: int|
                                            0 <= t < i + 1 && (#[trigger] ws.take(
                                                i as int + 1,
                                            )[t]).key_spec() == k;
                                        assert(t < i);
                                        assert(ws.take(i as int)[t] == ws.take(i as int + 1)[t]);
                                    }
                                    if writes_contain(ws.take(i as int), k) {
                                        let t = choose|t: int|
                                            0 <= t < i && (#[trigger] ws.take(
                                                i as int,
                                            )[t]).key_spec() == k;
                                        assert(ws.take(i as int + 1)[t] == ws.take(i as int)[t]);
                                    }
                                }
                                if writes_contain(ws.take(i as int), k) {
                                    assert(last_kind(ws.take(i as int + 1), k) == last_kind(
                                        ws.take(i as int),
                                        k,
                                    ));
                                }
                            }
                        }
                    }
                    i = i + 1;
                },
                Err(e) => {
                    proof {
                        assert(!writes_contain(ws.take(i as int), wk));
                        assert(prewrite_outcome(lookup(s0, wk), start_ts) == Err::<(), Error>(e));
                        assert(!write_ok(s0, ws[i as int], start_ts));
                        lemma_first_fail_is(s0, ws, start_ts, i as int);
                    }
                    let mut t: usize = 0;
                    proof {
                        assert(ws.take(0) =~= Seq::<crate::Write>::empty());
                    }
                    while t < i
                        invariant
                            self.wf(),
                            s0 == old(self)@,
                            ws == writes@,
                            t <= i <= ws.len(),
                            store_wf(s0),
                            forall|t2: int| 0 <= t2 < i ==> write_ok(s0, #[trigger] ws[t2], start_ts),
                            forall|k: Seq<u8>|
                                lookup(self@, k) == (if writes_contain(ws.take(t as int), k) {
                                    Some(cleared_entry(lookup(s0, k), k, start_ts))
                                } else if writes_contain(ws.take(i as int), k) {
                                    Some(
                                        locked_entry(
                                            lookup(s0, k),
                                            k,
                                            last_kind(ws.take(i as int), k),
                                            start_ts,
                                        ),
                                    )
                                } else {
                                    lookup(s0, k)
                                }),
                        decreases i - t,
                    {
                        let wt = &writes[t];
                        let ghost kt = wt.key_spec();
                        let ghost cur2 = self@;
                        proof {
                            assert(*wt == ws[t as int]);
                            assert(ws.take(i as int)[t as int] == ws[t as int]);
                            assert(writes_contain(ws.take(i as int), kt));
                            assert(write_ok(s0, ws[t as int], start_ts));
                        }
                        let _ = self.store.rollback_key(wt.key(), start_ts);
                        proof {
                            assert(ws.take(t as int + 1).last() == ws[t as int]);
                            assert(ws.take(t as int + 1).drop_last() =~= ws.take(t as int));
                            assert forall|k: Seq<u8>|
                                lookup(self@, k) == (if writes_contain(ws.take(t as int + 1), k) {
                                    Some(cleared_entry(lookup(s0, k), k, start_ts))
                                } else if writes_contain(ws.take(i as int), k) {
                                    Some(
                                        locked_entry(
                                            lookup(s0, k),
                                            k,
                                            last_kind(ws.take(i as int), k),
                                            start_ts,
                                        ),
                                    )
                                } else {
                                    lookup(s0, k)
                                }) by {
                                if k == kt {
                                    assert(writes_contain(ws.take(t as int + 1), k)) by {
                                        assert(ws.take(t as int + 1)[t as int].key_spec() == kt);
                                    }
                                    assert(lookup(cur2, kt) is Some);
                                } else {
                                    assert(writes_contain(ws.take(t as int + 1), k)
                                        == writes_contain(ws.take(t as int), k)) by {
                                        if writes_contain(ws.take(t as int + 1), k) {
                                            let u = choose|u: int|
                                                0 <= u < t + 1 && (#[trigger] ws.take(
                                                    t as int + 1,
                                                )[u]).key_spec() == k;
                                            assert(u < t);
                                            assert(ws.take(t as int)[u] == ws.take(
                                                t as int + 1,
                                            )[u]);
                                        }
                                        if writes_contain(ws.take(t as int), k) {
                                            let u = choose|u: int|
                                                0 <= u < t && (#[trigger] ws.take(
                                                    t as int,
                                                )[u]).key_spec() == k;
                                            assert(ws.take(t as int + 1)[u] == ws.take(
                                                t as int,
                                            )[u]);
                                        }
                                    }
                                }
                            }
                        }
                        t = t + 1;
                    }
                    proof {
                        assert(ws.take(t as int) == ws.take(i as int));
                    }
                    return Err(e);
                },
            }
        }
        proof {
            assert(ws.take(ws.len() as int) =~= ws);
            lemma_first_fail_is(s0, ws, start_ts, ws.len() as int);
        }
        Ok(())
    }

    /// Executes one command against the store and shapes its reply.  The
    /// scheduler never retries: any error becomes the command's result.
    pub fn handle_cmd(&mut self, cmd: Command) -> (r: CmdReply)
        requires
            old(self).wf(),
            cmd matches Command::Commit { start_ts, commit_ts } ==> start_ts < commit_ts,
        ensures
            final(self).wf(),
            match cmd {
                Command::Get { key, start_ts } => {
                    &&& final(self)@ == old(self)@
                    &&& r matches CmdReply::Value(v) && get_res_view(v) == get_spec(
                        old(self)@,
                        key@,
                        start_ts,
                    )
                },
                Command::Scan { start_key, limit, start_ts } => {
                    &&& final(self)@ == old(self)@
                    &&& r matches CmdReply::Pairs(p) && p@.map_values(
                        |x: Result<crate::KvPair, Error>| scan_item_view(x),
                    ) == scan_spec(old(self)@, start_key@, limit as nat, start_ts)
                },
                Command::Prewrite { writes, start_ts } => {
                    let s0 = old(self)@;
                    let ws = writes@;
                    let ff = first_fail(s0, ws, start_ts);
                    &&& r matches CmdReply::Unit(u)
                    &&& u == (if ff == ws.len() {
                        Ok::<(), Error>(())
                    } else {
                        prewrite_outcome(lookup(s0, ws[ff].key_spec()), start_ts)
                    })
                    &&& (u is Ok ==> forall|k: Seq<u8>|
                        lookup(final(self)@, k) == (if writes_contain(ws, k) {
                            Some(locked_entry(lookup(s0, k), k, last_kind(ws, k), start_ts))
                        } else {
                            lookup(s0, k)
                        }))
                    &&& (u is Err ==> forall|k: Seq<u8>|
                        lookup(final(self)@, k) == (if writes_contain(ws.take(ff), k) {
                            Some(cleared_entry(lookup(s0, k), k, start_ts))
                        } else {
                            lookup(s0, k)
                        }))
                },
                Command::Commit { start_ts, commit_ts } => {
                    &&& r matches CmdReply::Unit(u) && u == Ok::<(), Error>(())
                    &&& forall|k: Seq<u8>|
                        lookup(final(self)@, k) == match lookup(old(self)@, k) {
                            Some(e) => Some(committed_entry(e, start_ts, commit_ts)),
                            None => None::<EntryView>,
                        }
                },
            },
    {
        match cmd {
            Command::Get { key, start_ts } => {
                CmdReply::Value(self.get(key.as_slice(), start_ts))
            },
            Command::Scan { start_key, limit, start_ts } => {
                CmdReply::Pairs(self.scan(start_key.as_slice(), limit, start_ts))
            },
            Command::Prewrite { writes, start_ts } => {
                CmdReply::Unit(self.prewrite(&writes, start_ts))
            },
            Command::Commit { start_ts, commit_ts } => {
                CmdReply::Unit(self.commit(start_ts, commit_ts))
            },
        }
    }
}

} // verus!
