//! The multi-version store: versioned records, pending locks, snapshot
//! reads and the per-key halves of the two-phase write protocol.
//!
//! For every key the store keeps a history of committed write records,
//! strictly ordered by commit timestamp, and at most one pending lock.  A
//! snapshot read at timestamp `ts` sees the newest record committed at or
//! before `ts`, skipping lock-only records; it is refused while a pending
//! lock whose transaction started at or before `ts` is in place.
use vstd::prelude::*;

use crate::Error;
use crate::Value;
use crate::keys::copy_bytes;
use crate::keys::key_eq;
use crate::keys::key_lt;
use crate::keys::lemma_lex_asym;
use crate::keys::lemma_lex_total;
use crate::keys::lemma_lex_trans;
use crate::keys::lex_lt;

verus! {

/// The kind of one staged or committed operation.
#[derive(Debug)]
pub enum WriteKind {
    /// Store this value.
    Put(Value),
    /// Remove the key.
    Delete,
    /// Assert exclusivity without changing the value.
    Lock,
}

/// A pending lock: the provisional marker of exclusive ownership of a key
/// by the in-flight transaction that started at `start_ts`.
#[derive(Debug)]
pub struct PendingLock {
    /// The owning transaction's start timestamp.
    pub start_ts: u64,
    /// The staged operation, applied if the transaction commits.
    pub kind: WriteKind,
}

/// A committed write record, visible to snapshots at or after `commit_ts`.
#[derive(Debug)]
pub struct WriteRecord {
    /// The timestamp at which the record became visible.
    pub commit_ts: u64,
    /// The start timestamp of the transaction that wrote it.
    pub start_ts: u64,
    /// What the record does to the key's value.
    pub kind: WriteKind,
}

/// All versioned state the store keeps for one key.
#[derive(Debug)]
pub struct KeyEntry {
    /// The key itself.
    pub key: Vec<u8>,
    /// The pending lock, if an in-flight transaction holds the key.
    pub lock: Option<PendingLock>,
    /// The committed records, ascending by commit timestamp.
    pub writes: Vec<WriteRecord>,
}

/// Mathematical model of a [`WriteKind`].
pub enum KindView {
    /// Store this value.
    Put(Seq<u8>),
    /// Remove the key.
    Delete,
    /// Assert exclusivity without changing the value.
    Lock,
}

/// Mathematical model of a [`PendingLock`].
pub struct LockView {
    /// The owning transaction's start timestamp.
    pub start_ts: u64,
    /// The staged operation.
    pub kind: KindView,
}

/// Mathematical model of a [`WriteRecord`].
pub struct RecordView {
    /// The timestamp at which the record became visible.
    pub commit_ts: u64,
    /// The start timestamp of the transaction that wrote it.
    pub start_ts: u64,
    /// What the record does to the key's value.
    pub kind: KindView,
}

/// Mathematical model of a [`KeyEntry`].
pub struct EntryView {
    /// The key itself.
    pub key: Seq<u8>,
    /// The pending lock, if any.
    pub lock: Option<LockView>,
    /// The committed records, ascending by commit timestamp.
    pub writes: Seq<RecordView>,
}

impl View for WriteKind {
    type V = KindView;

    open spec fn view(&self) -> KindView {
        match self {
            WriteKind::Put(v) => KindView::Put(v@),
            WriteKind::Delete => KindView::Delete,
            WriteKind::Lock => KindView::Lock,
        }
    }
}

impl View for PendingLock {
    type V = LockView;

    open spec fn view(&self) -> LockView {
        LockView { start_ts: self.start_ts, kind: self.kind@ }
    }
}

impl View for WriteRecord {
    type V = RecordView;

    open spec fn view(&self) -> RecordView {
        RecordView { commit_ts: self.commit_ts, start_ts: self.start_ts, kind: self.kind@ }
    }
}

impl View for KeyEntry {
    type V = EntryView;

    open spec fn view(&self) -> EntryView {
        EntryView {
            key: self.key@,
            lock: match self.lock {
                Some(l) => Some(l@),
                None => None,
            },
            writes: self.writes@.map_values(|w: WriteRecord| w@),
        }
    }
}

/// A well-formed entry: records strictly ascending by commit timestamp,
/// every record committed after its transaction started, and any pending
/// lock younger than every committed record.
pub open spec fn entry_wf(e: EntryView) -> bool {
    &&& forall|i: int, j: int|
        0 <= i < j < e.writes.len() ==> e.writes[i].commit_ts < e.writes[j].commit_ts
    &&& forall|i: int| 0 <= i < e.writes.len() ==> e.writes[i].start_ts < e.writes[i].commit_ts
    &&& e.lock matches Some(l) ==> forall|i: int|
        0 <= i < e.writes.len() ==> e.writes[i].commit_ts < l.start_ts
}

/// A well-formed store: every entry well formed and the keys strictly
/// ascending in lexicographic order (hence unique).
pub open spec fn store_wf(s: Seq<EntryView>) -> bool {
    &&& forall|i: int| 0 <= i < s.len() ==> entry_wf(#[trigger] s[i])
    &&& forall|i: int, j: int| 0 <= i < j < s.len() ==> lex_lt(s[i].key, s[j].key)
}

/// The entry for key `k`, if the store holds one.
pub open spec fn lookup(s: Seq<EntryView>, k: Seq<u8>) -> Option<EntryView>
    decreases s.len(),
{
    if s.len() == 0 {
        None
    } else if s[0].key == k {
        Some(s[0])
    } else {
        lookup(s.skip(1), k)
    }
}

/// If position `i` holds key `k` and no earlier position does, the lookup
/// finds exactly that entry.
pub proof fn lemma_lookup_at(s: Seq<EntryView>, k: Seq<u8>, i: int)
    requires
        0 <= i < s.len(),
        s[i].key == k,
        forall|j: int| 0 <= j < i ==> s[j].key != k,
    ensures
        lookup(s, k) == Some(s[i]),
    decreases i,
{
    if i > 0 {
        assert(forall|j: int| 0 <= j < i - 1 ==> #[trigger] s.skip(1)[j].key == s[j + 1].key);
        lemma_lookup_at(s.skip(1), k, i - 1);
    }
}

/// If no position holds key `k`, the lookup finds nothing.
pub proof fn lemma_lookup_none(s: Seq<EntryView>, k: Seq<u8>)
    requires
        forall|j: int| 0 <= j < s.len() ==> s[j].key != k,
    ensures
        lookup(s, k) is None,
    decreases s.len(),
{
    if s.len() > 0 {
        assert(forall|j: int| 0 <= j < s.len() - 1 ==> #[trigger] s.skip(1)[j].key == s[j + 1].key);
        lemma_lookup_none(s.skip(1), k);
    }
}

/// Whatever the lookup finds sits at some position and carries the key.
pub proof fn lemma_lookup_found(s: Seq<EntryView>, k: Seq<u8>)
    requires
        lookup(s, k) is Some,
    ensures
        exists|i: int|
            0 <= i < s.len() && s[i] == lookup(s, k).unwrap() && #[trigger] s[i].key == k,
    decreases s.len(),
{
    if s.len() > 0 && s[0].key != k {
        lemma_lookup_found(s.skip(1), k);
        let i = choose|i: int|
            0 <= i < s.skip(1).len() && s.skip(1)[i] == lookup(s.skip(1), k).unwrap()
                && #[trigger] s.skip(1)[i].key == k;
        assert(s[i + 1] == s.skip(1)[i]);
    }
}

/// In a well-formed store the keys are pairwise distinct.
pub proof fn lemma_sorted_unique(s: Seq<EntryView>)
    requires
        store_wf(s),
    ensures
        forall|i: int, j: int|
            0 <= i < s.len() && 0 <= j < s.len() && i != j ==> #[trigger] s[i].key
                != #[trigger] s[j].key,
{
    assert forall|i: int, j: int|
        0 <= i < s.len() && 0 <= j < s.len() && i != j implies #[trigger] s[i].key
        != #[trigger] s[j].key by {
        if i < j {
            lemma_lex_asym(s[i].key, s[j].key);
        } else {
            lemma_lex_asym(s[j].key, s[i].key);
        }
    }
}

/// The record that decides a snapshot read at `ts`: the newest record with
/// `commit_ts <= ts` whose kind is not lock-only.
pub open spec fn deciding(ws: Seq<RecordView>, ts: u64) -> Option<RecordView>
    decreases ws.len(),
{
    if ws.len() == 0 {
        None
    } else if ws.last().commit_ts <= ts && !(ws.last().kind is Lock) {
        Some(ws.last())
    } else {
        deciding(ws.drop_last(), ts)
    }
}

/// The value a snapshot read at `ts` sees in a record history: the value
/// of the deciding record if it is a put, nothing otherwise.
pub open spec fn read_writes(ws: Seq<RecordView>, ts: u64) -> Option<Seq<u8>> {
    match deciding(ws, ts) {
        Some(r) => match r.kind {
            KindView::Put(v) => Some(v),
            KindView::Delete => None,
            KindView::Lock => None,
        },
        None => None,
    }
}

/// Whether a pending lock blocks a snapshot read at `ts`: it does exactly
/// when the lock's transaction started at or before the reader's snapshot.
pub open spec fn entry_locked_for(e: EntryView, ts: u64) -> bool {
    e.lock matches Some(l) && l.start_ts <= ts
}

/// What a snapshot read of key `k` at timestamp `ts` returns.
pub open spec fn get_spec(s: Seq<EntryView>, k: Seq<u8>, ts: u64) -> Result<
    Option<Seq<u8>>,
    Error,
> {
    match lookup(s, k) {
        None => Ok(None),
        Some(e) => if entry_locked_for(e, ts) {
            Err(Error::KeyIsLocked)
        } else {
            Ok(read_writes(e.writes, ts))
        },
    }
}

/// The model of an optional owned value.
pub open spec fn opt_value_view(o: Option<Value>) -> Option<Seq<u8>> {
    match o {
        Some(v) => Some(v@),
        None => None,
    }
}

/// The model of a snapshot read's result.
pub open spec fn get_res_view(r: Result<Option<Value>, Error>) -> Result<Option<Seq<u8>>, Error> {
    match r {
        Ok(o) => Ok(opt_value_view(o)),
        Err(e) => Err(e),
    }
}

impl crate::Write {
    /// The staged operation this write submits, without its key.
    pub open spec fn kind_spec(&self) -> KindView {
        match self {
            crate::Write::Put((_, v)) => KindView::Put(v@),
            crate::Write::Delete(_) => KindView::Delete,
            crate::Write::Lock(_) => KindView::Lock,
        }
    }
}

/// A committed record at or after `start_ts` exists: the prewriting
/// transaction's snapshot is stale.
pub open spec fn has_conflict(e: EntryView, start_ts: u64) -> bool {
    exists|i: int| 0 <= i < e.writes.len() && #[trigger] e.writes[i].commit_ts >= start_ts
}

/// Whether a prewrite of the key at `start_ts` succeeds, and if not, why:
/// a newer or equal committed record wins over any lock, and a lock of
/// another transaction excludes the prewrite.
pub open spec fn prewrite_outcome(e_opt: Option<EntryView>, start_ts: u64) -> Result<(), Error> {
    match e_opt {
        None => Ok(()),
        Some(e) => if has_conflict(e, start_ts) {
            Err(Error::WriteConflict)
        } else if e.lock matches Some(l) && l.start_ts != start_ts {
            Err(Error::KeyIsLocked)
        } else {
            Ok(())
        },
    }
}

/// The entry for key `k` after a successful prewrite staged `kind` under a
/// lock at `start_ts`.
pub open spec fn locked_entry(
    e_opt: Option<EntryView>,
    k: Seq<u8>,
    kind: KindView,
    start_ts: u64,
) -> EntryView {
    match e_opt {
        None => EntryView {
            key: k,
            lock: Some(LockView { start_ts, kind }),
            writes: Seq::empty(),
        },
        Some(e) => EntryView {
            key: e.key,
            lock: Some(LockView { start_ts, kind }),
            writes: e.writes,
        },
    }
}

/// Replacing the entry at position `i` by one with the same key moves the
/// lookup of that key to the new entry and no other.
pub proof fn lemma_lookup_update(s: Seq<EntryView>, i: int, e2: EntryView, k: Seq<u8>)
    requires
        0 <= i < s.len(),
        e2.key == s[i].key,
        forall|j: int| 0 <= j < s.len() && j != i ==> (#[trigger] s[j].key) != s[i].key,
    ensures
        lookup(s.update(i, e2), k) == if k == e2.key {
            Some(e2)
        } else {
            lookup(s, k)
        },
    decreases s.len(),
{
    let s2 = s.update(i, e2);
    if i == 0 {
        if k != e2.key {
            assert(s2.skip(1) =~= s.skip(1));
        }
    } else {
        assert(s2[0] == s[0]);
        if k == s[0].key {
        } else {
            assert(s2.skip(1) =~= s.skip(1).update(i - 1, e2));
            assert(forall|j: int|
                0 <= j < s.skip(1).len() ==> #[trigger] s.skip(1)[j] == s[j + 1]);
            lemma_lookup_update(s.skip(1), i - 1, e2, k);
        }
    }
}

/// Inserting an entry with a fresh key adds exactly that key's lookup and
/// leaves every other key's lookup unchanged.
pub proof fn lemma_lookup_insert(s: Seq<EntryView>, p: int, e2: EntryView, k: Seq<u8>)
    requires
        0 <= p <= s.len(),
        forall|j: int| 0 <= j < s.len() ==> (#[trigger] s[j].key) != e2.key,
    ensures
        lookup(s.insert(p, e2), k) == if k == e2.key {
            Some(e2)
        } else {
            lookup(s, k)
        },
    decreases p,
{
    let s2 = s.insert(p, e2);
    s.insert_ensures(p, e2);
    if p == 0 {
        if k != e2.key {
            assert(s2.skip(1) =~= s);
        }
    } else {
        assert(s2[0] == s[0]);
        if k == s[0].key {
        } else {
            assert(s2.skip(1) =~= s.skip(1).insert(p - 1, e2));
            assert(forall|j: int|
                0 <= j < s.skip(1).len() ==> #[trigger] s.skip(1)[j] == s[j + 1]);
            lemma_lookup_insert(s.skip(1), p - 1, e2, k);
        }
    }
}

/// A record of the transaction `(start_ts, commit_ts)` is already in the
/// key's history: an earlier commit of the same transaction went through.
pub open spec fn already_committed(e: EntryView, start_ts: u64, commit_ts: u64) -> bool {
    exists|i: int|
        0 <= i < e.writes.len() && (#[trigger] e.writes[i]).start_ts == start_ts
            && e.writes[i].commit_ts == commit_ts
}

/// Whether committing the key for the transaction that started at
/// `start_ts` succeeds: it does when the matching pending lock is still in
/// place, or idempotently when the same commit already went through.
pub open spec fn commit_outcome(e_opt: Option<EntryView>, start_ts: u64, commit_ts: u64) -> Result<
    (),
    Error,
> {
    match e_opt {
        None => Err(Error::TxnNotFound),
        Some(e) => if e.lock matches Some(l) && l.start_ts == start_ts {
            Ok(())
        } else if already_committed(e, start_ts, commit_ts) {
            Ok(())
        } else {
            Err(Error::TxnNotFound)
        },
    }
}

/// The entry after a successful commit: a matching pending lock becomes a
/// committed record at `commit_ts`; without one the entry is unchanged.
pub open spec fn committed_entry(e: EntryView, start_ts: u64, commit_ts: u64) -> EntryView {
    match e.lock {
        Some(l) => if l.start_ts == start_ts {
            EntryView {
                key: e.key,
                lock: None,
                writes: e.writes.push(
                    RecordView { commit_ts, start_ts, kind: l.kind },
                ),
            }
        } else {
            e
        },
        None => e,
    }
}

/// The entry after a rollback at `start_ts`: a matching pending lock is
/// removed without leaving a record; anything else is unchanged.
pub open spec fn rollback_entry(e: EntryView, start_ts: u64) -> EntryView {
    match e.lock {
        Some(l) => if l.start_ts == start_ts {
            EntryView { key: e.key, lock: None, writes: e.writes }
        } else {
            e
        },
        None => e,
    }
}

/// The entry for key `k` after a prewrite was undone: any lock placed at
/// `start_ts` is gone; a key first touched by that prewrite keeps an
/// entry without lock or records, which reads as absent.
pub open spec fn cleared_entry(e_opt: Option<EntryView>, k: Seq<u8>, start_ts: u64) -> EntryView {
    match e_opt {
        None => EntryView { key: k, lock: None, writes: Seq::empty() },
        Some(e) => rollback_entry(e, start_ts),
    }
}

/// The model of one scan result entry: a key with its value, or the error
/// that kept the key from resolving.
pub open spec fn scan_item_view(x: Result<crate::KvPair, Error>) -> Result<
    (Seq<u8>, Seq<u8>),
    Error,
> {
    match x {
        Ok((k, v)) => Ok((k@, v@)),
        Err(e) => Err(e),
    }
}

/// What a snapshot scan returns: walking the entries in ascending key
/// order from `k0`, each key resolves under the same visibility rule as a
/// read; a locked key contributes an error entry without aborting the
/// scan, a key without a visible value is passed over, and the sequence
/// stops after `limit` entries.
pub open spec fn scan_spec(s: Seq<EntryView>, k0: Seq<u8>, limit: nat, ts: u64) -> Seq<
    Result<(Seq<u8>, Seq<u8>), Error>,
>
    decreases s.len(),
{
    if limit == 0 || s.len() == 0 {
        Seq::empty()
    } else if lex_lt(s[0].key, k0) {
        scan_spec(s.skip(1), k0, limit, ts)
    } else if entry_locked_for(s[0], ts) {
        seq![Err(Error::KeyIsLocked)] + scan_spec(s.skip(1), k0, (limit - 1) as nat, ts)
    } else {
        match read_writes(s[0].writes, ts) {
            Some(v) => seq![Ok((s[0].key, v))] + scan_spec(s.skip(1), k0, (limit - 1) as nat, ts),
            None => scan_spec(s.skip(1), k0, limit, ts),
        }
    }
}

/// A scan ignores the entries whose keys lie below its start key.
proof fn lemma_scan_skip_below(s: Seq<EntryView>, k0: Seq<u8>, limit: nat, ts: u64, p: int)
    requires
        0 <= p <= s.len(),
        forall|j: int| 0 <= j < p ==> lex_lt((#[trigger] s[j]).key, k0),
    ensures
        scan_spec(s, k0, limit, ts) == scan_spec(s.skip(p), k0, limit, ts),
    decreases p,
{
    if p == 0 {
        assert(s.skip(0) =~= s);
    } else if limit > 0 {
        assert(forall|j: int| 0 <= j < s.skip(1).len() ==> #[trigger] s.skip(1)[j] == s[j + 1]);
        lemma_scan_skip_below(s.skip(1), k0, limit, ts, p - 1);
        assert(s.skip(1).skip(p - 1) =~= s.skip(p));
    }
}

/// Two stores aligned position by position through a key-preserving
/// transform have aligned lookups.
pub proof fn lemma_lookup_map(
    s0: Seq<EntryView>,
    s1: Seq<EntryView>,
    f: spec_fn(EntryView) -> EntryView,
    k: Seq<u8>,
)
    requires
        s1.len() == s0.len(),
        forall|j: int| 0 <= j < s0.len() ==> s1[j] == f(#[trigger] s0[j]),
        forall|j: int| 0 <= j < s0.len() ==> (#[trigger] f(s0[j])).key == s0[j].key,
    ensures
        lookup(s1, k) == match lookup(s0, k) {
            Some(e) => Some(f(e)),
            None => None,
        },
    decreases s0.len(),
{
    if s0.len() > 0 {
        if s0[0].key == k {
        } else {
            assert(forall|j: int|
                0 <= j < s0.skip(1).len() ==> #[trigger] s0.skip(1)[j] == s0[j + 1]);
            assert(forall|j: int|
                0 <= j < s1.skip(1).len() ==> #[trigger] s1.skip(1)[j] == s1[j + 1]);
            lemma_lookup_map(s0.skip(1), s1.skip(1), f, k);
        }
    }
}

/// In a sorted store, a key not below `k0` at position `p` keeps every
/// later key not below `k0` either.
proof fn lemma_lex_trans_ctx(s: Seq<EntryView>, k0: Seq<u8>, p: int, i: int)
    requires
        store_wf(s),
        0 <= p < i < s.len(),
        !lex_lt(s[p].key, k0),
    ensures
        !lex_lt(s[i].key, k0),
{
    if lex_lt(s[i].key, k0) {
        lemma_lex_trans(s[p].key, s[i].key, k0);
    }
}

/// The versioned store.  All access goes through the methods below, which
/// keep the store well formed.
pub struct MvccStore {
    entries: Vec<KeyEntry>,
}

impl View for MvccStore {
    type V = Seq<EntryView>;

    closed spec fn view(&self) -> Seq<EntryView> {
        self.entries@.map_values(|e: KeyEntry| e@)
    }
}

impl MvccStore {
    /// Well-formedness of the store's representation.
    pub open spec fn wf(&self) -> bool {
        store_wf(self@)
    }

    /// Creates an empty store.
    pub fn new() -> (s: MvccStore)
        ensures
            s.wf(),
            s@ == Seq::<EntryView>::empty(),
    {
        let s = MvccStore { entries: Vec::new() };
        proof {
            assert(s@ =~= Seq::<EntryView>::empty());
        }
        s
    }

    /// The position of the first entry whose key is not below `key`; the
    /// number of entries if every key is below it.
    fn find_pos(&self, key: &[u8]) -> (p: usize)
        ensures
            p <= self@.len(),
            forall|j: int| 0 <= j < p ==> lex_lt(#[trigger] self@[j].key, key@),
            p < self@.len() ==> !lex_lt(self@[p as int].key, key@),
    {
        let mut i: usize = 0;
        while i < self.entries.len()
            invariant
                i <= self@.len(),
                self@.len() == self.entries@.len(),
                forall|j: int| 0 <= j < i ==> lex_lt(#[trigger] self@[j].key, key@),
            decreases self@.len() - i,
        {
            let e = &self.entries[i];
            proof {
                assert(self@[i as int] == self.entries@[i as int]@);
            }
            if !key_lt(e.key.as_slice(), key) {
                return i;
            }
            i = i + 1;
        }
        i
    }

    /// In a well-formed store, once the gap position for a missing key is
    /// known, no entry at all carries that key.
    proof fn lemma_absent(s: Seq<EntryView>, k: Seq<u8>, p: int)
        requires
            store_wf(s),
            0 <= p <= s.len(),
            forall|j: int| 0 <= j < p ==> lex_lt(#[trigger] s[j].key, k),
            p < s.len() ==> !lex_lt(s[p].key, k) && s[p].key != k,
        ensures
            forall|j: int| 0 <= j < s.len() ==> (#[trigger] s[j].key) != k,
            forall|j: int| p <= j < s.len() ==> lex_lt(k, #[trigger] s[j].key),
    {
        assert forall|j: int| p <= j < s.len() implies lex_lt(k, #[trigger] s[j].key) by {
            lemma_lex_total(s[p].key, k);
            if p < j {
                lemma_lex_trans(k, s[p].key, s[j].key);
            }
        }
        assert forall|j: int| 0 <= j < s.len() implies (#[trigger] s[j].key) != k by {
            if j < p {
                lemma_lex_asym(s[j].key, k);
            } else {
                lemma_lex_asym(k, s[j].key);
            }
        }
    }

    /// Snapshot read: the value of the newest record committed at or
    /// before `start_ts`, unless a pending lock from a transaction that
    /// started at or before `start_ts` blocks the read.
    pub fn get(&self, key: &[u8], start_ts: u64) -> (r: Result<Option<Value>, Error>)
        requires
            self.wf(),
        ensures
            get_res_view(r) == get_spec(self@, key@, start_ts),
    {
        let p = self.find_pos(key);
        if p == self.entries.len() {
            proof {
                Self::lemma_absent(self@, key@, p as int);
                lemma_lookup_none(self@, key@);
            }
            return Ok(None);
        }
        let e = &self.entries[p];
        proof {
            assert(self@[p as int] == self.entries@[p as int]@);
        }
        if !key_eq(e.key.as_slice(), key) {
            proof {
                Self::lemma_absent(self@, key@, p as int);
                lemma_lookup_none(self@, key@);
            }
            return Ok(None);
        }
        proof {
            assert forall|j: int| 0 <= j < p implies (#[trigger] self@[j].key) != key@ by {
                lemma_lex_asym(self@[j].key, key@);
            }
            lemma_lookup_at(self@, key@, p as int);
        }
        if let Some(l) = &e.lock {
            if l.start_ts <= start_ts {
                return Err(Error::KeyIsLocked);
            }
        }
        let ghost ev = self@[p as int];
        let ghost vs = ev.writes;
        let ws = &e.writes;
        let mut j: usize = ws.len();
        proof {
            assert(vs.len() == ws@.len());
            assert(vs.take(j as int) =~= vs);
        }
        while j > 0
            invariant
                j <= vs.len(),
                vs.len() == ws@.len(),
                vs == ev.writes,
                forall|t: int| 0 <= t < vs.len() ==> vs[t] == #[trigger] ws@[t]@,
                deciding(vs, start_ts) == deciding(vs.take(j as int), start_ts),
                get_spec(self@, key@, start_ts) == Ok::<Option<Seq<u8>>, Error>(
                    read_writes(vs, start_ts),
                ),
            decreases j,
        {
            let rec = &ws[j - 1];
            proof {
                assert(vs.take(j as int).last() == vs[j as int - 1]);
                assert(vs.take(j as int).drop_last() =~= vs.take(j as int - 1));
            }
            proof {
                assert(vs[j as int - 1] == ws@[j as int - 1]@);
            }
            if rec.commit_ts <= start_ts {
                match &rec.kind {
                    WriteKind::Put(v) => {
                        proof {
                            assert(vs[j as int - 1].kind == KindView::Put(v@));
                            assert(deciding(vs.take(j as int), start_ts) == Some(
                                vs[j as int - 1],
                            ));
                            assert(read_writes(vs, start_ts) == Some(v@));
                        }
                        return Ok(Some(copy_bytes(v)));
                    },
                    WriteKind::Delete => {
                        proof {
                            assert(deciding(vs.take(j as int), start_ts) == Some(
                                vs[j as int - 1],
                            ));
                        }
                        return Ok(None);
                    },
                    WriteKind::Lock => {},
                }
            }
            j = j - 1;
        }
        proof {
            assert(vs.take(0) =~= Seq::<RecordView>::empty());
        }
        Ok(None)
    }

    /// Snapshot scan: resolves the keys at or after `start_key` in
    /// ascending order at timestamp `start_ts`, at most `limit` entries.
    /// A locked key is reported as an error entry for that key alone; a
    /// key without a visible value is passed over.
    pub fn scan(&self, start_key: &[u8], limit: usize, start_ts: u64) -> (r: Vec<
        Result<crate::KvPair, Error>,
    >)
        requires
            self.wf(),
        ensures
            r@.map_values(|x: Result<crate::KvPair, Error>| scan_item_view(x)) == scan_spec(
                self@,
                start_key@,
                limit as nat,
                start_ts,
            ),
    {
        let ghost s = self@;
        let ghost k0 = start_key@;
        let ghost total = scan_spec(s, k0, limit as nat, start_ts);
        let p = self.find_pos(start_key);
        proof {
            lemma_sorted_unique(s);
            lemma_scan_skip_below(s, k0, limit as nat, start_ts, p as int);
        }
        let mut out: Vec<Result<crate::KvPair, Error>> = Vec::new();
        let mut cnt: usize = 0;
        let mut i: usize = p;
        proof {
            assert(out@.map_values(|x: Result<crate::KvPair, Error>| scan_item_view(x)) =~= Seq::<
                Result<(Seq<u8>, Seq<u8>), Error>,
            >::empty());
        }
        while i < self.entries.len() && cnt < limit
            invariant
                self.wf(),
                s == self@,
                k0 == start_key@,
                total == scan_spec(s, k0, limit as nat, start_ts),
                p <= i <= s.len(),
                s.len() == self.entries@.len(),
                cnt <= limit,
                cnt <= i,
                p < s.len() ==> !lex_lt(s[p as int].key, k0),
                forall|i2: int, j2: int|
                    0 <= i2 < j2 < s.len() ==> (#[trigger] s[i2].key) != (#[trigger] s[j2].key),
                out@.map_values(|x: Result<crate::KvPair, Error>| scan_item_view(x)) + scan_spec(
                    s.skip(i as int),
                    k0,
                    (limit - cnt) as nat,
                    start_ts,
                ) == total,
            decreases s.len() - i,
        {
            let ghost out_v = out@.map_values(
                |x: Result<crate::KvPair, Error>| scan_item_view(x),
            );
            let ghost rest = scan_spec(s.skip(i as int), k0, (limit - cnt) as nat, start_ts);
            proof {
                assert(s.skip(i as int)[0] == s[i as int]);
                assert(s.skip(i as int).skip(1) =~= s.skip(i as int + 1));
                if i > p {
                    lemma_lex_trans_ctx(s, k0, p as int, i as int);
                }
                assert(!lex_lt(s[i as int].key, k0));
                assert forall|j: int| 0 <= j < i implies (#[trigger] s[j].key) != s[i as int].key
                    by {}
                lemma_lookup_at(s, s[i as int].key, i as int);
            }
            let e = &self.entries[i];
            proof {
                assert(e@ == s[i as int]);
            }
            let res = self.get(e.key.as_slice(), start_ts);
            match res {
                Err(err) => {
                    out.push(Err(err));
                    cnt = cnt + 1;
                    proof {
                        assert(out@.map_values(
                            |x: Result<crate::KvPair, Error>| scan_item_view(x),
                        ) =~= out_v.push(Err(err)));
                        assert(out_v.push(Err(err)) + scan_spec(
                            s.skip(i as int + 1),
                            k0,
                            (limit - cnt) as nat,
                            start_ts,
                        ) =~= out_v + rest);
                    }
                },
                Ok(Some(v)) => {
                    let pair = (copy_bytes(&e.key), v);
                    out.push(Ok(pair));
                    cnt = cnt + 1;
                    proof {
                        assert(out@.map_values(
                            |x: Result<crate::KvPair, Error>| scan_item_view(x),
                        ) =~= out_v.push(scan_item_view(Ok(pair))));
                        assert(out_v.push(scan_item_view(Ok(pair))) + scan_spec(
                            s.skip(i as int + 1),
                            k0,
                            (limit - cnt) as nat,
                            start_ts,
                        ) =~= out_v + rest);
                    }
                },
                Ok(None) => {},
            }
            i = i + 1;
        }
        proof {
            if i == s.len() {
                assert(s.skip(i as int).len() == 0);
            }
            assert(scan_spec(s.skip(i as int), k0, (limit - cnt) as nat, start_ts)
                =~= Seq::<Result<(Seq<u8>, Seq<u8>), Error>>::empty());
            assert(out@.map_values(|x: Result<crate::KvPair, Error>| scan_item_view(x)) =~= total);
        }
        out
    }

    /// Phase one of a write: places a pending lock for the key at
    /// `start_ts` with the staged operation, unless a committed record at
    /// or after `start_ts` exists (write conflict) or another transaction
    /// holds the key (locked).  A lock already held by the same
    /// transaction is restated, which makes the prewrite idempotent.
    pub fn prewrite_key(&mut self, w: &crate::Write, start_ts: u64) -> (r: Result<(), Error>)
        requires
            old(self).wf(),
        ensures
            final(self).wf(),
            r == prewrite_outcome(lookup(old(self)@, w.key_spec()), start_ts),
            r is Ok ==> forall|k: Seq<u8>|
                lookup(final(self)@, k) == (if k == w.key_spec() {
                    Some(
                        locked_entry(
                            lookup(old(self)@, w.key_spec()),
                            w.key_spec(),
                            w.kind_spec(),
                            start_ts,
                        ),
                    )
                } else {
                    lookup(old(self)@, k)
                }),
            r is Err ==> final(self)@ == old(self)@,
    {
        let key = w.key();
        let p = self.find_pos(key);
        proof {
            lemma_sorted_unique(self@);
        }
        if p < self.entries.len() && key_eq(self.entries[p].key.as_slice(), key) {
            let ghost s0 = self@;
            let ghost ev = self@[p as int];
            proof {
                assert(ev == self.entries@[p as int]@);
                assert forall|j: int| 0 <= j < p implies (#[trigger] self@[j].key) != key@ by {
                    lemma_lex_asym(self@[j].key, key@);
                }
                lemma_lookup_at(self@, key@, p as int);
            }
            let e = &self.entries[p];
            let n = e.writes.len();
            if n > 0 {
                let last = &e.writes[n - 1];
                proof {
                    assert(ev.writes[n as int - 1] == e.writes@[n as int - 1]@);
                }
                if last.commit_ts >= start_ts {
                    proof {
                        assert(ev.writes[n as int - 1].commit_ts >= start_ts);
                    }
                    return Err(Error::WriteConflict);
                }
                proof {
                    assert forall|i: int|
                        0 <= i < ev.writes.len() implies #[trigger] ev.writes[i].commit_ts
                        < start_ts by {
                        if i < n - 1 {
                            assert(ev.writes[i].commit_ts < ev.writes[n as int - 1].commit_ts);
                        }
                    }
                }
            }
            proof {
                assert(!has_conflict(ev, start_ts));
            }
            if let Some(l) = &e.lock {
                if l.start_ts != start_ts {
                    return Err(Error::KeyIsLocked);
                }
            }
            let kind = kind_of(w);
            self.entries[p].lock = Some(PendingLock { start_ts, kind });
            proof {
                let e2 = locked_entry(Some(ev), key@, w.kind_spec(), start_ts);
                assert(self@ =~= s0.update(p as int, e2));
                assert forall|k: Seq<u8>|
                    lookup(self@, k) == (if k == w.key_spec() {
                        Some(e2)
                    } else {
                        lookup(s0, k)
                    }) by {
                    lemma_lookup_update(s0, p as int, e2, k);
                }
                assert(entry_wf(e2));
                assert(store_wf(self@)) by {
                    assert(forall|j: int|
                        0 <= j < self@.len() ==> (#[trigger] self@[j].key) == s0[j].key);
                }
            }
            Ok(())
        } else {
            let ghost s0 = self@;
            proof {
                Self::lemma_absent(self@, key@, p as int);
                lemma_lookup_none(self@, key@);
            }
            let kind = kind_of(w);
            let entry = KeyEntry {
                key: vstd::slice::slice_to_vec(key),
                lock: Some(PendingLock { start_ts, kind }),
                writes: Vec::new(),
            };
            let ghost e2 = entry@;
            self.entries.insert(p, entry);
            proof {
                s0.insert_ensures(p as int, e2);
                assert(self@ =~= s0.insert(p as int, e2));
                assert(e2.key == key@);
                assert(e2.writes =~= Seq::<RecordView>::empty());
                assert forall|k: Seq<u8>|
                    lookup(self@, k) == (if k == w.key_spec() {
                        Some(locked_entry(None, key@, w.kind_spec(), start_ts))
                    } else {
                        lookup(s0, k)
                    }) by {
                    lemma_lookup_insert(s0, p as int, e2, k);
                    if k == w.key_spec() {
                        assert(e2 == locked_entry(None, key@, w.kind_spec(), start_ts));
                    }
                }
                assert(entry_wf(e2));
                assert(store_wf(self@)) by {
                    assert forall|i: int, j: int|
                        0 <= i < j < self@.len() implies lex_lt(self@[i].key, self@[j].key) by {
                        if j < p {
                        } else if i < p && j == p {
                        } else if i == p {
                        } else if i < p {
                        } else {
                        }
                    }
                }
            }
            Ok(())
        }
    }

    /// Phase two of a write: converts the key's pending lock at exactly
    /// `start_ts` into a committed record at `commit_ts` and removes the
    /// lock.  Succeeds idempotently when the same commit already went
    /// through; fails with `TxnNotFound` when no matching lock or record
    /// exists.
    pub fn commit_key(&mut self, key: &[u8], start_ts: u64, commit_ts: u64) -> (r: Result<
        (),
        Error,
    >)
        requires
            old(self).wf(),
            start_ts < commit_ts,
        ensures
            final(self).wf(),
            r == commit_outcome(lookup(old(self)@, key@), start_ts, commit_ts),
            r is Ok ==> forall|k: Seq<u8>|
                lookup(final(self)@, k) == (if k == key@ {
                    Some(
                        committed_entry(
                            lookup(old(self)@, key@).unwrap(),
                            start_ts,
                            commit_ts,
                        ),
                    )
                } else {
                    lookup(old(self)@, k)
                }),
            r is Err ==> final(self)@ == old(self)@,
    {
        let p = self.find_pos(key);
        proof {
            lemma_sorted_unique(self@);
        }
        if p == self.entries.len() || !key_eq(self.entries[p].key.as_slice(), key) {
            proof {
                Self::lemma_absent(self@, key@, p as int);
                lemma_lookup_none(self@, key@);
            }
            return Err(Error::TxnNotFound);
        }
        let ghost s0 = self@;
        let ghost ev = self@[p as int];
        proof {
            assert(ev == self.entries@[p as int]@);
            assert forall|j: int| 0 <= j < p implies (#[trigger] self@[j].key) != key@ by {
                lemma_lex_asym(self@[j].key, key@);
            }
            lemma_lookup_at(self@, key@, p as int);
        }
        let lock_matches = match &self.entries[p].lock {
            Some(l) => l.start_ts == start_ts,
            None => false,
        };
        if lock_matches {
            let taken = self.entries[p].lock.take();
            let ghost s1 = self@;
            if let Some(pl) = taken {
                self.entries[p].writes.push(
                    WriteRecord { commit_ts, start_ts, kind: pl.kind },
                );
                proof {
                    let e2 = committed_entry(ev, start_ts, commit_ts);
                    assert(self.entries@[p as int]@.writes =~= ev.writes.push(
                        RecordView { commit_ts, start_ts, kind: pl.kind@ },
                    ));
                    assert(self@ =~= s0.update(p as int, e2));
                    assert forall|k: Seq<u8>|
                        lookup(self@, k) == (if k == key@ {
                            Some(e2)
                        } else {
                            lookup(s0, k)
                        }) by {
                        lemma_lookup_update(s0, p as int, e2, k);
                    }
                    assert(entry_wf(e2)) by {
                        assert(forall|i: int|
                            0 <= i < ev.writes.len() ==> (#[trigger] ev.writes[i]).commit_ts
                                < start_ts);
                        assert(forall|i: int|
                            0 <= i < e2.writes.len() - 1 ==> e2.writes[i] == ev.writes[i]);
                    }
                    assert(store_wf(self@)) by {
                        assert(forall|j: int|
                            0 <= j < self@.len() ==> (#[trigger] self@[j].key) == s0[j].key);
                    }
                }
                Ok(())
            } else {
                proof {
                    assert(false);
                }
                Err(Error::TxnNotFound)
            }
        } else {
            let e = &self.entries[p];
            let n = e.writes.len();
            let mut j: usize = 0;
            while j < n
                invariant
                    j <= n,
                    n == ev.writes.len(),
                    ev == self@[p as int],
                    0 <= p < self@.len(),
                    self@.len() == self.entries@.len(),
                    ev == self.entries@[p as int]@,
                    self@ == old(self)@,
                    store_wf(self@),
                    lookup(old(self)@, key@) == Some(ev),
                    !(ev.lock matches Some(l) && l.start_ts == start_ts),
                    forall|t: int|
                        0 <= t < j ==> !((#[trigger] ev.writes[t]).start_ts == start_ts
                            && ev.writes[t].commit_ts == commit_ts),
                decreases n - j,
            {
                let rec = &self.entries[p].writes[j];
                proof {
                    assert(ev.writes[j as int] == self.entries@[p as int].writes@[j as int]@);
                }
                if rec.start_ts == start_ts && rec.commit_ts == commit_ts {
                    proof {
                        assert(already_committed(ev, start_ts, commit_ts));
                    }
                    return Ok(());
                }
                j = j + 1;
            }
            proof {
                assert(!already_committed(ev, start_ts, commit_ts));
            }
            Err(Error::TxnNotFound)
        }
    }

    /// Removes the key's pending lock at `start_ts` without leaving a
    /// record.  Idempotent: succeeds whether or not such a lock exists.
    pub fn rollback_key(&mut self, key: &[u8], start_ts: u64) -> (r: Result<(), Error>)
        requires
            old(self).wf(),
        ensures
            final(self).wf(),
            r == Ok::<(), Error>(()),
            forall|k: Seq<u8>|
                lookup(final(self)@, k) == (if k == key@ && lookup(old(self)@, key@) is Some {
                    Some(rollback_entry(lookup(old(self)@, key@).unwrap(), start_ts))
                } else {
                    lookup(old(self)@, k)
                }),
    {
        let p = self.find_pos(key);
        proof {
            lemma_sorted_unique(self@);
        }
        if p == self.entries.len() || !key_eq(self.entries[p].key.as_slice(), key) {
            proof {
                Self::lemma_absent(self@, key@, p as int);
                lemma_lookup_none(self@, key@);
            }
            return Ok(());
        }
        let ghost s0 = self@;
        let ghost ev = self@[p as int];
        proof {
            assert(ev == self.entries@[p as int]@);
            assert forall|j: int| 0 <= j < p implies (#[trigger] self@[j].key) != key@ by {
                lemma_lex_asym(self@[j].key, key@);
            }
            lemma_lookup_at(self@, key@, p as int);
        }
        let lock_matches = match &self.entries[p].lock {
            Some(l) => l.start_ts == start_ts,
            None => false,
        };
        if lock_matches {
            self.entries[p].lock = None;
            proof {
                let e2 = rollback_entry(ev, start_ts);
                assert(self@ =~= s0.update(p as int, e2));
                assert forall|k: Seq<u8>|
                    lookup(self@, k) == (if k == key@ {
                        Some(e2)
                    } else {
                        lookup(s0, k)
                    }) by {
                    lemma_lookup_update(s0, p as int, e2, k);
                }
                assert(store_wf(self@)) by {
                    assert(forall|j: int|
                        0 <= j < self@.len() ==> (#[trigger] self@[j].key) == s0[j].key);
                }
            }
        } else {
            proof {
                assert(rollback_entry(ev, start_ts) == ev);
            }
        }
        Ok(())
    }

    /// Commits a whole transaction: every pending lock placed at
    /// `start_ts` becomes a committed record at `commit_ts`.  Keys without
    /// such a lock are untouched, so repeating a commit is a no-op.
    pub fn commit_txn(&mut self, start_ts: u64, commit_ts: u64)
        requires
            old(self).wf(),
            start_ts < commit_ts,
        ensures
            final(self).wf(),
            forall|k: Seq<u8>|
                lookup(final(self)@, k) == match lookup(old(self)@, k) {
                    Some(e) => Some(committed_entry(e, start_ts, commit_ts)),
                    None => None::<EntryView>,
                },
    {
        let ghost s0 = self@;
        let n = self.entries.len();
        let mut i: usize = 0;
        while i < n
            invariant
                n == s0.len(),
                self@.len() == s0.len(),
                self.entries@.len() == s0.len(),
                i <= n,
                start_ts < commit_ts,
                store_wf(s0),
                store_wf(self@),
                forall|j: int| 0 <= j < s0.len() ==> (#[trigger] self@[j]).key == s0[j].key,
                forall|j: int|
                    0 <= j < i ==> (#[trigger] self@[j]) == committed_entry(
                        s0[j],
                        start_ts,
                        commit_ts,
                    ),
                forall|j: int| i <= j < s0.len() ==> (#[trigger] self@[j]) == s0[j],
            decreases n - i,
        {
            let ghost prev = self@;
            let ghost ev = s0[i as int];
            proof {
                assert(self@[i as int] == self.entries@[i as int]@);
            }
            let lock_matches = match &self.entries[i].lock {
                Some(l) => l.start_ts == start_ts,
                None => false,
            };
            if lock_matches {
                let taken = self.entries[i].lock.take();
                if let Some(pl) = taken {
                    self.entries[i].writes.push(
                        WriteRecord { commit_ts, start_ts, kind: pl.kind },
                    );
                    proof {
                        let e2 = committed_entry(ev, start_ts, commit_ts);
                        assert(self.entries@[i as int]@.writes =~= ev.writes.push(
                            RecordView { commit_ts, start_ts, kind: pl.kind@ },
                        ));
                        assert(self@ =~= prev.update(i as int, e2));
                        assert(entry_wf(e2)) by {
                            assert(entry_wf(ev));
                            assert(forall|t: int|
                                0 <= t < ev.writes.len() ==> (#[trigger] ev.writes[t]).commit_ts
                                    < start_ts);
                            assert(forall|t: int|
                                0 <= t < e2.writes.len() - 1 ==> e2.writes[t] == ev.writes[t]);
                        }
                        assert(store_wf(self@)) by {
                            assert(forall|j: int|
                                0 <= j < self@.len() ==> (#[trigger] self@[j].key) == prev[j].key);
                        }
                    }
                } else {
                    proof {
                        assert(false);
                    }
                }
            } else {
                proof {
                    assert(committed_entry(ev, start_ts, commit_ts) == ev);
                }
            }
            i = i + 1;
        }
        proof {
            let f = |e: EntryView| committed_entry(e, start_ts, commit_ts);
            assert forall|k: Seq<u8>|
                lookup(self@, k) == match lookup(s0, k) {
                    Some(e) => Some(f(e)),
                    None => None::<EntryView>,
                } by {
                assert(forall|j: int|
                    0 <= j < s0.len() ==> (#[trigger] f(s0[j])).key == s0[j].key);
                lemma_lookup_map(s0, self@, f, k);
            }
        }
    }
}

/// Builds the staged operation a write submits, detached from its key.
fn kind_of(w: &crate::Write) -> (k: WriteKind)
    ensures
        k@ == w.kind_spec(),
{
    match w {
        crate::Write::Put((_, v)) => WriteKind::Put(copy_bytes(v)),
        crate::Write::Delete(_) => WriteKind::Delete,
        crate::Write::Lock(_) => WriteKind::Lock,
    }
}

} // verus!
