//! End-to-end exercises of the transactional store: snapshot reads,
//! two-phase writes, conflict detection, scans and rollback.
use mvcc_kv::Command;
use mvcc_kv::Error;
use mvcc_kv::Write;
use mvcc_kv::mvcc::MvccStore;
use mvcc_kv::txn::CmdReply;
use mvcc_kv::txn::Scheduler;

fn put(key: &[u8], value: &[u8]) -> Write {
    Write::Put((key.to_vec(), value.to_vec()))
}

#[test]
fn test_get_put() {
    let mut storage = Scheduler::new();
    assert_eq!(storage.get(b"x", 100), Ok(None));
    assert!(storage.prewrite(&vec![put(b"x", b"100")], 100).is_ok());
    assert!(storage.commit(100, 101).is_ok());
    assert_eq!(storage.get(b"x", 100), Ok(None));
    assert_eq!(storage.get(b"x", 101), Ok(Some(b"100".to_vec())));
}

#[test]
fn test_txn() {
    let mut storage = Scheduler::new();
    assert!(storage.prewrite(&vec![put(b"x", b"100")], 100).is_ok());
    assert!(storage.prewrite(&vec![put(b"y", b"101")], 101).is_ok());
    assert!(storage.commit(100, 110).is_ok());
    assert!(storage.commit(101, 111).is_ok());
    assert_eq!(storage.get(b"x", 120), Ok(Some(b"100".to_vec())));
    assert_eq!(storage.get(b"y", 120), Ok(Some(b"101".to_vec())));
    assert!(storage.prewrite(&vec![put(b"x", b"105")], 105).is_err());
}

#[test]
fn prewrite_conflict_is_write_conflict() {
    let mut storage = Scheduler::new();
    assert!(storage.prewrite(&vec![put(b"k", b"1")], 10).is_ok());
    assert!(storage.commit(10, 20).is_ok());
    // start_ts 15 is older than the committed record at 20.
    assert_eq!(storage.prewrite(&vec![put(b"k", b"2")], 15), Err(Error::WriteConflict));
    // start_ts equal to the commit timestamp conflicts as well.
    assert_eq!(storage.prewrite(&vec![put(b"k", b"2")], 20), Err(Error::WriteConflict));
    // a younger transaction may prewrite.
    assert_eq!(storage.prewrite(&vec![put(b"k", b"2")], 21), Ok(()));
}

#[test]
fn prewrite_locked_key_is_rejected() {
    let mut storage = Scheduler::new();
    assert_eq!(storage.prewrite(&vec![put(b"k", b"1")], 10), Ok(()));
    assert_eq!(storage.prewrite(&vec![put(b"k", b"2")], 11), Err(Error::KeyIsLocked));
    // the same transaction may restate its own lock.
    assert_eq!(storage.prewrite(&vec![put(b"k", b"3")], 10), Ok(()));
}

#[test]
fn get_blocked_by_older_lock() {
    let mut storage = Scheduler::new();
    assert!(storage.prewrite(&vec![put(b"a", b"1")], 50).is_ok());
    // a reader whose snapshot is at or after the lock's start is blocked.
    assert_eq!(storage.get(b"a", 50), Err(Error::KeyIsLocked));
    assert_eq!(storage.get(b"a", 60), Err(Error::KeyIsLocked));
    // a reader with an older snapshot sees past the lock.
    assert_eq!(storage.get(b"a", 49), Ok(None));
}

#[test]
fn delete_hides_older_value() {
    let mut storage = Scheduler::new();
    assert!(storage.prewrite(&vec![put(b"d", b"v")], 10).is_ok());
    assert!(storage.commit(10, 11).is_ok());
    assert!(storage.prewrite(&vec![Write::Delete(b"d".to_vec())], 20).is_ok());
    assert!(storage.commit(20, 21).is_ok());
    assert_eq!(storage.get(b"d", 15), Ok(Some(b"v".to_vec())));
    assert_eq!(storage.get(b"d", 21), Ok(None));
    assert_eq!(storage.get(b"d", 30), Ok(None));
}

#[test]
fn lock_record_is_skipped_by_reads() {
    let mut storage = Scheduler::new();
    assert!(storage.prewrite(&vec![put(b"l", b"v")], 10).is_ok());
    assert!(storage.commit(10, 11).is_ok());
    // a lock-only write asserts exclusivity without changing the value.
    assert!(storage.prewrite(&vec![Write::Lock(b"l".to_vec())], 20).is_ok());
    assert!(storage.commit(20, 21).is_ok());
    assert_eq!(storage.get(b"l", 30), Ok(Some(b"v".to_vec())));
}

#[test]
fn failed_prewrite_rolls_back_earlier_locks() {
    let mut storage = Scheduler::new();
    assert!(storage.prewrite(&vec![put(b"y", b"old")], 5).is_ok());
    assert!(storage.commit(5, 6).is_ok());
    // y conflicts at start_ts 6; the lock already placed on x must go.
    let writes = vec![put(b"x", b"1"), put(b"y", b"2")];
    assert_eq!(storage.prewrite(&writes, 6), Err(Error::WriteConflict));
    // x is free again: another transaction can lock it at once.
    assert_eq!(storage.prewrite(&vec![put(b"x", b"3")], 7), Ok(()));
    // and nothing of the failed transaction ever becomes visible.
    assert_eq!(storage.get(b"y", 100), Ok(Some(b"old".to_vec())));
}

#[test]
fn commit_twice_is_a_no_op() {
    let mut storage = Scheduler::new();
    assert!(storage.prewrite(&vec![put(b"k", b"v")], 10).is_ok());
    assert!(storage.commit(10, 11).is_ok());
    // replaying the commit, even at another timestamp, changes nothing.
    assert_eq!(storage.commit(10, 12), Ok(()));
    assert_eq!(storage.get(b"k", 11), Ok(Some(b"v".to_vec())));
    assert_eq!(storage.get(b"k", 12), Ok(Some(b"v".to_vec())));
    assert_eq!(storage.get(b"k", 10), Ok(None));
}

#[test]
fn commit_of_unknown_transaction_is_a_no_op() {
    let mut storage = Scheduler::new();
    assert_eq!(storage.commit(33, 44), Ok(()));
    assert_eq!(storage.get(b"anything", 100), Ok(None));
}

#[test]
fn multi_key_prewrite_commits_atomically() {
    let mut storage = Scheduler::new();
    let writes = vec![put(b"a", b"1"), put(b"b", b"2"), put(b"c", b"3")];
    assert_eq!(storage.prewrite(&writes, 10), Ok(()));
    assert!(storage.commit(10, 20).is_ok());
    assert_eq!(storage.get(b"a", 20), Ok(Some(b"1".to_vec())));
    assert_eq!(storage.get(b"b", 20), Ok(Some(b"2".to_vec())));
    assert_eq!(storage.get(b"c", 20), Ok(Some(b"3".to_vec())));
    assert_eq!(storage.get(b"a", 19), Ok(None));
}

#[test]
fn scan_returns_keys_in_order_up_to_limit() {
    let mut storage = Scheduler::new();
    let writes = vec![put(b"c", b"3"), put(b"a", b"1"), put(b"b", b"2"), put(b"d", b"4")];
    assert!(storage.prewrite(&writes, 10).is_ok());
    assert!(storage.commit(10, 11).is_ok());
    let all = storage.scan(b"a", 10, 20);
    let expect: Vec<(Vec<u8>, Vec<u8>)> = vec![
        (b"a".to_vec(), b"1".to_vec()),
        (b"b".to_vec(), b"2".to_vec()),
        (b"c".to_vec(), b"3".to_vec()),
        (b"d".to_vec(), b"4".to_vec()),
    ];
    let got: Vec<(Vec<u8>, Vec<u8>)> = all.into_iter().map(|r| r.unwrap()).collect();
    assert_eq!(got, expect);
    // the limit caps the result, and the start key trims the front.
    let two = storage.scan(b"b", 2, 20);
    let got: Vec<(Vec<u8>, Vec<u8>)> = two.into_iter().map(|r| r.unwrap()).collect();
    assert_eq!(got, vec![(b"b".to_vec(), b"2".to_vec()), (b"c".to_vec(), b"3".to_vec())]);
}

#[test]
fn scan_reports_locked_keys_without_aborting() {
    let mut storage = Scheduler::new();
    assert!(storage.prewrite(&vec![put(b"a", b"1"), put(b"c", b"3")], 10).is_ok());
    assert!(storage.commit(10, 11).is_ok());
    assert!(storage.prewrite(&vec![put(b"b", b"2")], 15).is_ok());
    let r = storage.scan(b"a", 10, 20);
    assert_eq!(r.len(), 3);
    assert_eq!(r[0], Ok((b"a".to_vec(), b"1".to_vec())));
    assert_eq!(r[1], Err(Error::KeyIsLocked));
    assert_eq!(r[2], Ok((b"c".to_vec(), b"3".to_vec())));
}

#[test]
fn scan_skips_deleted_and_invisible_keys() {
    let mut storage = Scheduler::new();
    assert!(storage.prewrite(&vec![put(b"a", b"1"), put(b"b", b"2")], 10).is_ok());
    assert!(storage.commit(10, 11).is_ok());
    assert!(storage.prewrite(&vec![Write::Delete(b"a".to_vec())], 20).is_ok());
    assert!(storage.commit(20, 21).is_ok());
    let r = storage.scan(b"", 10, 30);
    assert_eq!(r, vec![Ok((b"b".to_vec(), b"2".to_vec()))]);
    // at an old enough snapshot the deleted key is still there.
    let r = storage.scan(b"", 10, 15);
    assert_eq!(r.len(), 2);
    assert_eq!(r[0], Ok((b"a".to_vec(), b"1".to_vec())));
}

#[test]
fn commands_drive_the_scheduler() {
    let mut storage = Scheduler::new();
    let reply = storage.handle_cmd(Command::Prewrite {
        writes: vec![put(b"x", b"100")],
        start_ts: 100,
    });
    assert!(matches!(reply, CmdReply::Unit(Ok(()))));
    let reply = storage.handle_cmd(Command::Commit { start_ts: 100, commit_ts: 101 });
    assert!(matches!(reply, CmdReply::Unit(Ok(()))));
    let reply = storage.handle_cmd(Command::Get { key: b"x".to_vec(), start_ts: 101 });
    match reply {
        CmdReply::Value(v) => assert_eq!(v, Ok(Some(b"100".to_vec()))),
        _ => panic!("wrong reply shape"),
    }
    let reply = storage.handle_cmd(Command::Scan {
        start_key: b"a".to_vec(),
        limit: 5,
        start_ts: 101,
    });
    match reply {
        CmdReply::Pairs(p) => assert_eq!(p, vec![Ok((b"x".to_vec(), b"100".to_vec()))]),
        _ => panic!("wrong reply shape"),
    }
}

#[test]
fn store_commit_key_reports_missing_transaction() {
    let mut store = MvccStore::new();
    assert_eq!(store.commit_key(b"k", 10, 11), Err(Error::TxnNotFound));
    let w = put(b"k", b"v");
    assert_eq!(store.prewrite_key(&w, 10), Ok(()));
    // a commit under a different start timestamp does not match the lock.
    assert_eq!(store.commit_key(b"k", 9, 11), Err(Error::TxnNotFound));
    assert_eq!(store.commit_key(b"k", 10, 11), Ok(()));
    // replaying the exact same commit is accepted; a different one is not.
    assert_eq!(store.commit_key(b"k", 10, 11), Ok(()));
    assert_eq!(store.commit_key(b"k", 10, 12), Err(Error::TxnNotFound));
}

#[test]
fn store_rollback_key_is_idempotent() {
    let mut store = MvccStore::new();
    assert_eq!(store.rollback_key(b"k", 10), Ok(()));
    let w = put(b"k", b"v");
    assert_eq!(store.prewrite_key(&w, 10), Ok(()));
    assert_eq!(store.rollback_key(b"k", 10), Ok(()));
    assert_eq!(store.rollback_key(b"k", 10), Ok(()));
    // the rolled-back value never became visible, and the key is free.
    assert_eq!(store.get(b"k", 100), Ok(None));
    assert_eq!(store.prewrite_key(&w, 20), Ok(()));
}

#[test]
fn write_names_its_key() {
    let w = put(b"p", b"v");
    assert_eq!(w.key(), b"p");
    let d = Write::Delete(b"q".to_vec());
    assert_eq!(d.key(), b"q");
    let l = Write::Lock(b"r".to_vec());
    assert_eq!(l.key(), b"r");
}

#[test]
fn empty_write_set_prewrites_cleanly() {
    let mut storage = Scheduler::new();
    assert_eq!(storage.prewrite(&vec![], 10), Ok(()));
    assert_eq!(storage.commit(10, 11), Ok(()));
    assert_eq!(storage.get(b"k", 100), Ok(None));
}

#[test]
fn duplicate_key_in_write_set_stages_the_last_operation() {
    let mut storage = Scheduler::new();
    let writes = vec![put(b"k", b"first"), put(b"k", b"second")];
    assert_eq!(storage.prewrite(&writes, 10), Ok(()));
    assert!(storage.commit(10, 11).is_ok());
    assert_eq!(storage.get(b"k", 11), Ok(Some(b"second".to_vec())));
}

#[test]
fn scan_with_zero_limit_is_empty() {
    let mut storage = Scheduler::new();
    assert!(storage.prewrite(&vec![put(b"a", b"1")], 10).is_ok());
    assert!(storage.commit(10, 11).is_ok());
    assert_eq!(storage.scan(b"", 0, 20), vec![]);
}

#[test]
fn extreme_timestamps_are_ordinary_values() {
    let mut storage = Scheduler::new();
    assert!(storage.prewrite(&vec![put(b"k", b"v")], 0).is_ok());
    assert!(storage.commit(0, u64::MAX).is_ok());
    assert_eq!(storage.get(b"k", u64::MAX), Ok(Some(b"v".to_vec())));
    assert_eq!(storage.get(b"k", u64::MAX - 1), Ok(None));
}

#[test]
fn snapshot_reads_are_stable_history() {
    let mut storage = Scheduler::new();
    assert!(storage.prewrite(&vec![put(b"k", b"v1")], 10).is_ok());
    assert!(storage.commit(10, 11).is_ok());
    assert!(storage.prewrite(&vec![put(b"k", b"v2")], 20).is_ok());
    assert!(storage.commit(20, 21).is_ok());
    // each snapshot keeps seeing the version visible at its timestamp.
    assert_eq!(storage.get(b"k", 11), Ok(Some(b"v1".to_vec())));
    assert_eq!(storage.get(b"k", 20), Ok(Some(b"v1".to_vec())));
    assert_eq!(storage.get(b"k", 21), Ok(Some(b"v2".to_vec())));
    assert_eq!(storage.get(b"k", 10), Ok(None));
}
