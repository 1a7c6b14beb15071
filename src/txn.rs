//! Write and lock records, isolation levels, and the lock visibility check.
use vstd::prelude::*;

verus! {

/// Kind of a committed write record.
#[derive(Clone, Copy, Debug, PartialEq, Eq, Structural)]
pub enum WriteType {
    Put,
    Delete,
    Lock,
    Rollback,
}

/// A committed write record: its kind, the start timestamp of the transaction
/// that wrote it, and the value when it is small enough to be inlined.
#[derive(Clone, Debug)]
pub struct Write {
    pub write_type: WriteType,
    pub start_ts: u64,
    pub short_value: Option<Vec<u8>>,
}

/// Kind of a lock record.
#[derive(Clone, Copy, Debug, PartialEq, Eq, Structural)]
pub enum LockType {
    Put,
    Delete,
    Lock,
}

/// A lock left by an uncommitted transaction.
#[derive(Clone, Debug)]
pub struct Lock {
    pub lock_type: LockType,
    pub primary: Vec<u8>,
    pub ts: u64,
    pub ttl: u64,
    pub short_value: Option<Vec<u8>>,
}

/// Snapshot isolation consults locks; read committed ignores them.
#[derive(Clone, Copy, Debug, PartialEq, Eq, Structural)]
pub enum IsolationLevel {
    SI,
    RC,
}

/// Errors of a scan.
#[derive(Clone, Debug)]
pub enum Error {
    /// The key is locked by a transaction that started at or before the read.
    /// Recoverable: the scan goes on past this key on the next call.
    KeyIsLocked { key: Vec<u8>, primary: Vec<u8>, ts: u64, ttl: u64 },
    /// A Put without an inline value has no record in the default family.
    DefaultNotFound { key: Vec<u8>, start_ts: u64 },
}

/// Outcome of checking a lock against a read.
#[derive(Clone, Debug)]
pub enum CheckLockResult {
    Locked(Error),
    NotLocked,
    Ignored(u64),
}

/// The lock does not block a read at `ts`.
pub open spec fn lock_not_blocking(lock: Lock, ts: u64) -> bool {
    lock.ts > ts || lock.lock_type == LockType::Lock
}

/// A read of the latest version (`ts == u64::MAX`) of a primary key passes its
/// own lock and reads just below the lock's start.
pub open spec fn lock_ignored(key: Seq<u8>, lock: Lock, ts: u64) -> bool {
    !lock_not_blocking(lock, ts) && ts == u64::MAX && key == lock.primary@
}

/// The timestamp a read uses after passing an ignored lock.
pub open spec fn ignored_read_ts(lock: Lock) -> u64 {
    if lock.ts == 0 { 0 } else { (lock.ts - 1) as u64 }
}

/// Decide whether `lock` on `key` blocks a read at `ts`.
pub fn check_lock(key: &Vec<u8>, ts: u64, lock: &Lock) -> (r: CheckLockResult)
    ensures
        lock_not_blocking(*lock, ts) ==> r is NotLocked,
        lock_ignored(key@, *lock, ts) ==> r == CheckLockResult::Ignored(ignored_read_ts(*lock)),
        !lock_not_blocking(*lock, ts) && !lock_ignored(key@, *lock, ts) ==> (match r {
            CheckLockResult::Locked(Error::KeyIsLocked { key: k, primary, ts: lts, ttl }) => k@
                == key@ && primary@ == lock.primary@ && lts == lock.ts && ttl == lock.ttl,
            _ => false,
        }),
{
    if lock.ts > ts || lock.lock_type == LockType::Lock {
        return CheckLockResult::NotLocked;
    }
    if ts == u64::MAX && crate::key::key_equal(key, &lock.primary) {
        let t: u64 = if lock.ts == 0 { 0 } else { lock.ts - 1 };
        return CheckLockResult::Ignored(t);
    }
    CheckLockResult::Locked(
        Error::KeyIsLocked {
            key: copy_bytes(key),
            primary: copy_bytes(&lock.primary),
            ts: lock.ts,
            ttl: lock.ttl,
        },
    )
}

/// A fresh vector holding the same bytes.
pub fn copy_bytes(v: &Vec<u8>) -> (r: Vec<u8>)
    ensures
        r@ == v@,
{
    let mut r: Vec<u8> = Vec::with_capacity(v.len());
    let mut i: usize = 0;
    while i < v.len()
        invariant
            i <= v.len(),
            r@ == v@.subrange(0, i as int),
        decreases v.len() - i,
    {
        r.push(v[i]);
        i = i + 1;
    }
    assert(r@ =~= v@);
    r
}

} // verus!
