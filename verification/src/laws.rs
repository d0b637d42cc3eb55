//! The store's transaction-protocol guarantees, stated and proved over
//! the same models its operations promise in their contracts.
use vstd::prelude::*;

use crate::Error;
use crate::mvcc::EntryView;
use crate::mvcc::KindView;
use crate::mvcc::RecordView;
use crate::mvcc::committed_entry;
use crate::mvcc::deciding;
use crate::mvcc::entry_locked_for;
use crate::mvcc::entry_wf;
use crate::mvcc::get_spec;
use crate::mvcc::has_conflict;
use crate::mvcc::lemma_lookup_found;
use crate::mvcc::locked_entry;
use crate::mvcc::lookup;
use crate::mvcc::prewrite_outcome;
use crate::mvcc::read_writes;
use crate::mvcc::store_wf;

verus! {

/// A deciding record never postdates the snapshot it decides.
proof fn lemma_deciding_le(ws: Seq<RecordView>, ts: u64)
    ensures
        deciding(ws, ts) matches Some(r) ==> r.commit_ts <= ts,
    decreases ws.len(),
{
    if ws.len() > 0 {
        lemma_deciding_le(ws.drop_last(), ts);
    }
}

/// A deciding record is one of the history's records.
proof fn lemma_deciding_mem(ws: Seq<RecordView>, ts: u64)
    ensures
        deciding(ws, ts) matches Some(r) ==> exists|i: int|
            0 <= i < ws.len() && #[trigger] ws[i] == r,
    decreases ws.len(),
{
    if ws.len() > 0 {
        if ws.last().commit_ts <= ts && !(ws.last().kind is Lock) {
            assert(ws[ws.len() - 1] == ws.last());
        } else {
            lemma_deciding_mem(ws.drop_last(), ts);
            if deciding(ws.drop_last(), ts) is Some {
                let i = choose|i: int|
                    0 <= i < ws.drop_last().len() && #[trigger] ws.drop_last()[i] == deciding(
                        ws.drop_last(),
                        ts,
                    ).unwrap();
                assert(ws[i] == ws.drop_last()[i]);
            }
        }
    }
}

/// Over a history sorted by commit timestamp, raising the snapshot
/// timestamp never moves the deciding record backwards.
proof fn lemma_deciding_mono(ws: Seq<RecordView>, t1: u64, t2: u64)
    requires
        t1 <= t2,
        forall|i: int, j: int| 0 <= i < j < ws.len() ==> ws[i].commit_ts < ws[j].commit_ts,
    ensures
        deciding(ws, t1) matches Some(r1) ==> deciding(ws, t2) matches Some(r2) && r2.commit_ts
            >= r1.commit_ts,
    decreases ws.len(),
{
    if ws.len() > 0 && deciding(ws, t1) is Some {
        let last = ws.last();
        assert(forall|i: int, j: int|
            0 <= i < j < ws.drop_last().len() ==> ws.drop_last()[i].commit_ts
                < ws.drop_last()[j].commit_ts);
        if last.commit_ts <= t1 && !(last.kind is Lock) {
        } else if last.commit_ts <= t2 && !(last.kind is Lock) {
            lemma_deciding_mem(ws.drop_last(), t1);
            let r1 = deciding(ws.drop_last(), t1).unwrap();
            let i = choose|i: int|
                0 <= i < ws.drop_last().len() && #[trigger] ws.drop_last()[i] == r1;
            assert(ws[i] == r1);
            assert(ws[i].commit_ts < last.commit_ts);
        } else {
            lemma_deciding_mono(ws.drop_last(), t1, t2);
        }
    }
}

/// Snapshot monotonicity: if a read of key `k` at `t1` sees value `v`
/// from a record committed at some `c <= t1`, a read at a later snapshot
/// `t2` that is not blocked by a lock is decided by a record committed at
/// `c' >= c` — visibility never regresses as the snapshot advances.
pub proof fn lemma_snapshot_monotonic(s: Seq<EntryView>, k: Seq<u8>, t1: u64, t2: u64, v: Seq<u8>)
    requires
        store_wf(s),
        t1 < t2,
        get_spec(s, k, t1) == Ok::<Option<Seq<u8>>, Error>(Some(v)),
        get_spec(s, k, t2) is Ok,
    ensures
        lookup(s, k) is Some,
        ({
            let ws = lookup(s, k).unwrap().writes;
            &&& deciding(ws, t1) matches Some(r1) && r1.kind == KindView::Put(v) && r1.commit_ts
                <= t1
            &&& deciding(ws, t2) matches Some(r2) && r2.commit_ts >= deciding(
                ws,
                t1,
            ).unwrap().commit_ts
            &&& (deciding(ws, t2).unwrap().kind matches KindView::Put(v2) ==> get_spec(s, k, t2)
                == Ok::<Option<Seq<u8>>, Error>(Some(v2)))
        }),
{
    let e = lookup(s, k).unwrap();
    lemma_lookup_found(s, k);
    let i = choose|i: int| 0 <= i < s.len() && s[i] == e && #[trigger] s[i].key == k;
    assert(entry_wf(e));
    lemma_deciding_le(e.writes, t1);
    lemma_deciding_mono(e.writes, t1, t2);
}

/// Mutual exclusion: while one transaction's pending lock is in place on
/// a key, a prewrite of the same key by any other transaction is
/// refused, with a write conflict or a lock error.
pub proof fn lemma_mutual_exclusion(s: Seq<EntryView>, k: Seq<u8>, held_ts: u64, other_ts: u64)
    requires
        store_wf(s),
        lookup(s, k) matches Some(e) && e.lock matches Some(l) && l.start_ts == held_ts,
        other_ts != held_ts,
    ensures
        prewrite_outcome(lookup(s, k), other_ts) == Err::<(), Error>(Error::WriteConflict)
            || prewrite_outcome(lookup(s, k), other_ts) == Err::<(), Error>(Error::KeyIsLocked),
{
}

/// Write-conflict rejection: a prewrite of key `k` at `start_ts` is
/// refused whenever some record of `k` was committed at or after
/// `start_ts`.
pub proof fn lemma_write_conflict(s: Seq<EntryView>, k: Seq<u8>, start_ts: u64, i: int)
    requires
        store_wf(s),
        lookup(s, k) matches Some(e) && 0 <= i < e.writes.len() && e.writes[i].commit_ts
            >= start_ts,
    ensures
        prewrite_outcome(lookup(s, k), start_ts) == Err::<(), Error>(Error::WriteConflict),
{
    let e = lookup(s, k).unwrap();
    assert(has_conflict(e, start_ts));
}

/// Commit idempotence: once a transaction's pending locks are converted,
/// committing the same transaction again — at the same or any other
/// commit timestamp — leaves every key's state exactly as it was.
pub proof fn lemma_commit_idempotent(
    s0: Seq<EntryView>,
    s1: Seq<EntryView>,
    s2: Seq<EntryView>,
    start_ts: u64,
    c1: u64,
    c2: u64,
)
    requires
        forall|k: Seq<u8>|
            lookup(s1, k) == match lookup(s0, k) {
                Some(e) => Some(committed_entry(e, start_ts, c1)),
                None => None::<EntryView>,
            },
        forall|k: Seq<u8>|
            lookup(s2, k) == match lookup(s1, k) {
                Some(e) => Some(committed_entry(e, start_ts, c2)),
                None => None::<EntryView>,
            },
    ensures
        forall|k: Seq<u8>| lookup(s2, k) == lookup(s1, k),
{
    assert forall|k: Seq<u8>| lookup(s2, k) == lookup(s1, k) by {
        match lookup(s0, k) {
            Some(e) => {
                assert(committed_entry(committed_entry(e, start_ts, c1), start_ts, c2)
                    == committed_entry(e, start_ts, c1));
            },
            None => {},
        }
    }
}

/// Round trip: prewriting `Put(k, v)` at `s_ts` and committing at `c_ts`
/// makes a read of `k` at any `t >= c_ts` return `v`, while a read at
/// `t < c_ts` still returns whatever the key's prior history showed.
pub proof fn lemma_round_trip(
    s0: Seq<EntryView>,
    s1: Seq<EntryView>,
    s2: Seq<EntryView>,
    k: Seq<u8>,
    v: Seq<u8>,
    s_ts: u64,
    c_ts: u64,
    t: u64,
)
    requires
        prewrite_outcome(lookup(s0, k), s_ts) is Ok,
        s_ts < c_ts,
        forall|k2: Seq<u8>|
            lookup(s1, k2) == (if k2 == k {
                Some(locked_entry(lookup(s0, k), k, KindView::Put(v), s_ts))
            } else {
                lookup(s0, k2)
            }),
        forall|k2: Seq<u8>|
            lookup(s2, k2) == match lookup(s1, k2) {
                Some(e) => Some(committed_entry(e, s_ts, c_ts)),
                None => None::<EntryView>,
            },
    ensures
        t >= c_ts ==> get_spec(s2, k, t) == Ok::<Option<Seq<u8>>, Error>(Some(v)),
        t < c_ts ==> get_spec(s2, k, t) == Ok::<Option<Seq<u8>>, Error>(
            match lookup(s0, k) {
                Some(e0) => read_writes(e0.writes, t),
                None => None::<Seq<u8>>,
            },
        ),
{
    let le = locked_entry(lookup(s0, k), k, KindView::Put(v), s_ts);
    let e2 = committed_entry(le, s_ts, c_ts);
    assert(lookup(s2, k) == Some(e2));
    let rv = RecordView { commit_ts: c_ts, start_ts: s_ts, kind: KindView::Put(v) };
    assert(e2.writes == le.writes.push(rv));
    assert(e2.writes.last() == rv);
    assert(!entry_locked_for(e2, t));
    if t >= c_ts {
        assert(deciding(e2.writes, t) == Some(rv));
    } else {
        assert(e2.writes.drop_last() =~= le.writes);
        assert(deciding(e2.writes, t) == deciding(le.writes, t));
        match lookup(s0, k) {
            Some(e0) => {
                assert(le.writes == e0.writes);
                assert(read_writes(e2.writes, t) == read_writes(e0.writes, t));
            },
            None => {
                assert(le.writes.len() == 0);
                assert(deciding(le.writes, t) is None);
                assert(read_writes(e2.writes, t) == None::<Seq<u8>>);
            },
        }
    }
}

} // verus!
