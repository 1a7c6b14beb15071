use mvcc_scan::engine::{Entry, SEEK_BOUND};
use mvcc_scan::key::{key_equal, key_less};
use mvcc_scan::scanner::{ForwardScanner, ForwardScannerBuilder, Snapshot};
use mvcc_scan::txn::{check_lock, CheckLockResult, Error, IsolationLevel, Lock, LockType, Write, WriteType};

fn b(s: &str) -> Vec<u8> {
    s.as_bytes().to_vec()
}

fn write(k: &str, commit_ts: u64, write_type: WriteType, start_ts: u64, v: Option<&str>) -> Entry<Write> {
    Entry {
        user_key: b(k),
        ts: commit_ts,
        value: Write { write_type, start_ts, short_value: v.map(b) },
    }
}

fn put(k: &str, v: &str, commit_ts: u64) -> Entry<Write> {
    write(k, commit_ts, WriteType::Put, commit_ts - 1, Some(v))
}

fn del(k: &str, commit_ts: u64) -> Entry<Write> {
    write(k, commit_ts, WriteType::Delete, commit_ts - 1, None)
}

fn lock(k: &str, primary: &str, ts: u64, lock_type: LockType) -> Entry<Lock> {
    Entry {
        user_key: b(k),
        ts: 0,
        value: Lock { lock_type, primary: b(primary), ts, ttl: 3000, short_value: None },
    }
}

fn snapshot(mut locks: Vec<Entry<Lock>>, mut writes: Vec<Entry<Write>>, mut defaults: Vec<Entry<Vec<u8>>>) -> Snapshot {
    locks.sort_by(|a, b| a.user_key.cmp(&b.user_key));
    writes.sort_by(|a, b| a.user_key.cmp(&b.user_key).then(b.ts.cmp(&a.ts)));
    defaults.sort_by(|a, b| a.user_key.cmp(&b.user_key).then(b.ts.cmp(&a.ts)));
    Snapshot { locks, writes, defaults }
}

fn scan_all(s: &mut ForwardScanner) -> Vec<(String, String)> {
    let mut out = Vec::new();
    while let Some((k, v)) = s.read_next().unwrap() {
        out.push((String::from_utf8(k).unwrap(), String::from_utf8(v).unwrap()));
    }
    out
}

fn pairs(v: &[(&str, &str)]) -> Vec<(String, String)> {
    v.iter().map(|(k, v)| (k.to_string(), v.to_string())).collect()
}

#[test]
fn simple_visibility() {
    let snap = snapshot(vec![], vec![put("a", "1", 5), put("a", "2", 10), put("b", "x", 3)], vec![]);
    let mut s = ForwardScannerBuilder::new(snap, 7).range(Some(b("a")), Some(b("z"))).build().unwrap();
    assert_eq!(scan_all(&mut s), pairs(&[("a", "1"), ("b", "x")]));
}

#[test]
fn tombstone_hides_key() {
    let snap = snapshot(vec![], vec![put("a", "1", 5), del("a", 8), put("b", "y", 6)], vec![]);
    let mut s = ForwardScannerBuilder::new(snap, 10).build().unwrap();
    assert_eq!(scan_all(&mut s), pairs(&[("b", "y")]));
}

#[test]
fn older_put_visible_below_delete() {
    let snap = snapshot(vec![], vec![put("a", "1", 5), del("a", 8), put("b", "y", 6)], vec![]);
    let mut s = ForwardScannerBuilder::new(snap, 7).build().unwrap();
    assert_eq!(scan_all(&mut s), pairs(&[("a", "1"), ("b", "y")]));
}

#[test]
fn rollback_is_skipped() {
    let snap = snapshot(vec![], vec![write("a", 9, WriteType::Rollback, 9, None), put("a", "v", 5)], vec![]);
    let mut s = ForwardScannerBuilder::new(snap, 10).build().unwrap();
    assert_eq!(scan_all(&mut s), pairs(&[("a", "v")]));
}

#[test]
fn only_rollback_and_lock_writes_skipped() {
    let snap = snapshot(
        vec![],
        vec![
            write("a", 9, WriteType::Rollback, 9, None),
            write("a", 6, WriteType::Lock, 5, None),
            put("b", "y", 3),
        ],
        vec![],
    );
    let mut s = ForwardScannerBuilder::new(snap, 10).build().unwrap();
    assert_eq!(scan_all(&mut s), pairs(&[("b", "y")]));
}

fn locked_snapshot() -> Snapshot {
    snapshot(vec![lock("a", "a", 4, LockType::Put)], vec![put("b", "y", 3)], vec![])
}

#[test]
fn lock_under_si() {
    let mut s = ForwardScannerBuilder::new(locked_snapshot(), 10).build().unwrap();
    match s.read_next() {
        Err(Error::KeyIsLocked { key, primary, ts, ttl }) => {
            assert_eq!(key, b("a"));
            assert_eq!(primary, b("a"));
            assert_eq!(ts, 4);
            assert_eq!(ttl, 3000);
        }
        other => panic!("expected a lock error, got {:?}", other),
    }
    assert_eq!(s.read_next().unwrap(), Some((b("b"), b("y"))));
    assert_eq!(s.read_next().unwrap(), None);
}

#[test]
fn lock_under_rc() {
    let mut s = ForwardScannerBuilder::new(locked_snapshot(), 10)
        .isolation_level(IsolationLevel::RC)
        .build()
        .unwrap();
    assert_eq!(scan_all(&mut s), pairs(&[("b", "y")]));
}

#[test]
fn lock_on_key_with_write_under_si_still_advances() {
    let snap = snapshot(vec![lock("a", "a", 4, LockType::Put)], vec![put("a", "1", 2), put("b", "y", 3)], vec![]);
    let mut s = ForwardScannerBuilder::new(snap, 10).build().unwrap();
    assert!(matches!(s.read_next(), Err(Error::KeyIsLocked { .. })));
    assert_eq!(s.read_next().unwrap(), Some((b("b"), b("y"))));
    assert_eq!(s.read_next().unwrap(), None);
}

#[test]
fn newer_lock_does_not_block() {
    let snap = snapshot(vec![lock("a", "a", 20, LockType::Put)], vec![put("a", "1", 2)], vec![]);
    let mut s = ForwardScannerBuilder::new(snap, 10).build().unwrap();
    assert_eq!(scan_all(&mut s), pairs(&[("a", "1")]));
}

#[test]
fn pessimistic_lock_type_does_not_block() {
    let snap = snapshot(vec![lock("a", "a", 4, LockType::Lock)], vec![put("a", "1", 2)], vec![]);
    let mut s = ForwardScannerBuilder::new(snap, 10).build().unwrap();
    assert_eq!(scan_all(&mut s), pairs(&[("a", "1")]));
}

#[test]
fn latest_read_of_primary_passes_own_lock() {
    let snap = snapshot(vec![lock("a", "a", 6, LockType::Put)], vec![put("a", "old", 3), put("a", "new", 5)], vec![]);
    let mut s = ForwardScannerBuilder::new(snap, u64::MAX).build().unwrap();
    assert_eq!(scan_all(&mut s), pairs(&[("a", "new")]));
}

#[test]
fn deep_history_seek_fallback() {
    let mut writes = Vec::new();
    for i in 0..(2 * SEEK_BOUND as u64) {
        writes.push(put("a", "newer", 100 - i));
    }
    writes.push(put("a", "oldest", 1));
    let mut s = ForwardScannerBuilder::new(snapshot(vec![], writes, vec![]), 1).build().unwrap();
    assert_eq!(scan_all(&mut s), pairs(&[("a", "oldest")]));
    let st = s.take_statistics();
    assert_eq!(st.write.seek, 2);
}

#[test]
fn empty_engine() {
    let mut s = ForwardScannerBuilder::new(snapshot(vec![], vec![], vec![]), 10).build().unwrap();
    assert_eq!(s.read_next().unwrap(), None);
}

#[test]
fn range_excludes_all_keys() {
    let snap = snapshot(vec![lock("m", "m", 4, LockType::Put)], vec![put("a", "1", 5), put("m", "2", 5), put("z", "3", 5)], vec![]);
    let mut s = ForwardScannerBuilder::new(snap, 10).range(Some(b("n")), Some(b("y"))).build().unwrap();
    assert_eq!(s.read_next().unwrap(), None);
}

#[test]
fn range_is_half_open() {
    let snap = snapshot(vec![], vec![put("a", "1", 5), put("b", "2", 5), put("c", "3", 5)], vec![]);
    let mut s = ForwardScannerBuilder::new(snap, 10).range(Some(b("b")), Some(b("c"))).build().unwrap();
    assert_eq!(scan_all(&mut s), pairs(&[("b", "2")]));
}

#[test]
fn no_version_at_or_below_ts() {
    let snap = snapshot(vec![], vec![put("a", "1", 50), put("b", "2", 5)], vec![]);
    let mut s = ForwardScannerBuilder::new(snap, 10).build().unwrap();
    assert_eq!(scan_all(&mut s), pairs(&[("b", "2")]));
}

#[test]
fn out_of_line_values_from_default_family() {
    let snap = snapshot(
        vec![],
        vec![write("a", 5, WriteType::Put, 4, None), put("b", "short", 5), write("c", 7, WriteType::Put, 6, None)],
        vec![
            Entry { user_key: b("a"), ts: 4, value: b("large-a") },
            Entry { user_key: b("c"), ts: 6, value: b("large-c") },
            Entry { user_key: b("c"), ts: 2, value: b("stale-c") },
        ],
    );
    let mut s = ForwardScannerBuilder::new(snap, 10).build().unwrap();
    assert!(s.default_cursor.is_none());
    assert_eq!(s.read_next().unwrap(), Some((b("a"), b("large-a"))));
    let first = s.default_cursor.unwrap();
    assert_eq!(s.read_next().unwrap(), Some((b("b"), b("short"))));
    assert_eq!(s.read_next().unwrap(), Some((b("c"), b("large-c"))));
    let later = s.default_cursor.unwrap();
    assert_eq!((first.lo, first.hi), (later.lo, later.hi));
    assert!(s.lower_bound.is_none() && s.upper_bound.is_none());
    assert_eq!(s.read_next().unwrap(), None);
}

#[test]
fn missing_default_record() {
    let snap = snapshot(vec![], vec![write("a", 5, WriteType::Put, 4, None)], vec![]);
    let mut s = ForwardScannerBuilder::new(snap, 10).build().unwrap();
    match s.read_next() {
        Err(Error::DefaultNotFound { key, start_ts }) => {
            assert_eq!(key, b("a"));
            assert_eq!(start_ts, 4);
        }
        other => panic!("expected a missing default record, got {:?}", other),
    }
}

fn mixed_snapshot() -> Snapshot {
    snapshot(
        vec![lock("c", "c", 40, LockType::Put)],
        vec![
            put("a", "1", 5),
            write("b", 6, WriteType::Put, 3, None),
            put("c", "3", 7),
            del("d", 8),
            put("e", "5", 2),
        ],
        vec![Entry { user_key: b("b"), ts: 3, value: b("big") }],
    )
}

#[test]
fn omit_value_keeps_keys_and_empties_values() {
    let mut full = ForwardScannerBuilder::new(mixed_snapshot(), 10).build().unwrap();
    let mut keys_only = ForwardScannerBuilder::new(mixed_snapshot(), 10).omit_value(true).build().unwrap();
    let a = scan_all(&mut full);
    let k = scan_all(&mut keys_only);
    assert_eq!(a, pairs(&[("a", "1"), ("b", "big"), ("c", "3"), ("e", "5")]));
    assert_eq!(a.iter().map(|p| p.0.clone()).collect::<Vec<_>>(), k.iter().map(|p| p.0.clone()).collect::<Vec<_>>());
    assert!(k.iter().all(|p| p.1.is_empty()));
}

#[test]
fn results_strictly_ascending() {
    let mut s = ForwardScannerBuilder::new(mixed_snapshot(), 10).fill_cache(false).build().unwrap();
    let out = scan_all(&mut s);
    for w in out.windows(2) {
        assert!(w[0].0 < w[1].0);
    }
}

#[test]
fn none_stays_none() {
    let mut s = ForwardScannerBuilder::new(mixed_snapshot(), 10).build().unwrap();
    scan_all(&mut s);
    assert_eq!(s.read_next().unwrap(), None);
    assert_eq!(s.read_next().unwrap(), None);
}

#[test]
fn statistics_grow_and_reset() {
    let mut s = ForwardScannerBuilder::new(mixed_snapshot(), 10).build().unwrap();
    let mut prev = s.statistics;
    while let Some(_) = s.read_next().unwrap() {
        let cur = s.statistics;
        assert!(cur.write.seek >= prev.write.seek && cur.write.next >= prev.write.next);
        assert!(cur.write.processed >= prev.write.processed && cur.lock.next >= prev.lock.next);
        prev = cur;
    }
    let taken = s.take_statistics();
    assert_eq!(taken.write.processed, 5);
    assert_eq!(taken.write.seek, 1);
    assert_eq!(taken.lock.seek, 1);
    assert_eq!(taken.lock.next, 1);
    let after = s.take_statistics();
    assert_eq!(after.write.seek + after.write.next + after.write.processed, 0);
    assert_eq!(after.lock.seek + after.lock.next + after.data.seek + after.data.next, 0);
}

#[test]
fn check_lock_outcomes() {
    let l = Lock { lock_type: LockType::Put, primary: b("p"), ts: 5, ttl: 10, short_value: None };
    assert!(matches!(check_lock(&b("k"), 4, &l), CheckLockResult::NotLocked));
    assert!(matches!(check_lock(&b("k"), 5, &l), CheckLockResult::Locked(Error::KeyIsLocked { ts: 5, ttl: 10, .. })));
    assert!(matches!(check_lock(&b("p"), u64::MAX, &l), CheckLockResult::Ignored(4)));
    assert!(matches!(check_lock(&b("k"), u64::MAX, &l), CheckLockResult::Locked(_)));
}

#[test]
fn key_order_is_lexicographic() {
    assert!(key_less(&b("a"), &b("b")));
    assert!(key_less(&b("a"), &b("ab")));
    assert!(!key_less(&b("ab"), &b("a")));
    assert!(!key_less(&b("a"), &b("a")));
    assert!(key_less(&vec![], &b("a")));
    assert!(key_equal(&b("ab"), &b("ab")));
    assert!(!key_equal(&b("ab"), &b("ac")));
}

#[test]
fn rollback_scenario_processes_two_records() {
    let snap = snapshot(vec![], vec![write("a", 9, WriteType::Rollback, 9, None), put("a", "v", 5)], vec![]);
    let mut s = ForwardScannerBuilder::new(snap, 10).build().unwrap();
    assert_eq!(s.read_next().unwrap(), Some((b("a"), b("v"))));
    let st = s.take_statistics();
    assert_eq!(st.write.processed, 2);
    assert_eq!(st.write.seek, 1);
}

#[test]
fn lock_error_does_no_value_lookup() {
    let snap = snapshot(
        vec![lock("a", "a", 4, LockType::Put)],
        vec![write("a", 3, WriteType::Put, 2, None)],
        vec![Entry { user_key: b("a"), ts: 2, value: b("big") }],
    );
    let mut s = ForwardScannerBuilder::new(snap, 10).build().unwrap();
    assert!(matches!(s.read_next(), Err(Error::KeyIsLocked { .. })));
    assert!(s.default_cursor.is_none());
    assert_eq!(s.statistics.write.processed, 0);
    assert_eq!(s.statistics.data.seek + s.statistics.data.next, 0);
    assert_eq!(s.read_next().unwrap(), None);
}
