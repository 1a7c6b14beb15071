//! Forward scan: reconciles the lock and write families key by key and
//! resolves, for each user key, the newest version visible at the read
//! timestamp.
use vstd::prelude::*;
use crate::engine::{
    bump, bumped, cf_le, entry_lt, in_range, key_le, lemma_key_le_lt, sorted, stats_le, Cursor, Entry,
    Statistics, SEEK_BOUND,
};
use crate::key::{key_equal, key_less, key_lt, lemma_key_lt_asymmetric, lemma_key_lt_irreflexive, lemma_key_lt_total};
use crate::txn::{
    check_lock, copy_bytes, ignored_read_ts, lock_ignored, lock_not_blocking, CheckLockResult,
    Error, IsolationLevel, Lock, Write, WriteType,
};

verus! {

/// A consistent view of the three column families.
#[derive(Debug)]
pub struct Snapshot {
    /// Locks by user key; at most one per key.
    pub locks: Vec<Entry<Lock>>,
    /// Committed writes by user key and commit timestamp.
    pub writes: Vec<Entry<Write>>,
    /// Values too large to inline, by user key and start timestamp.
    pub defaults: Vec<Entry<Vec<u8>>>,
}

impl Snapshot {
    /// Each family is in storage order, locks have distinct keys and commit
    /// timestamps are positive.
    pub open spec fn wf(&self) -> bool {
        &&& sorted(self.locks@)
        &&& sorted(self.writes@)
        &&& sorted(self.defaults@)
        &&& forall|i: int, j: int|
            0 <= i < j < self.locks@.len() ==> #[trigger] key_lt(
                self.locks@[i].user_key@,
                self.locks@[j].user_key@,
            )
        &&& forall|i: int| 0 <= i < self.writes@.len() ==> #[trigger] self.writes@[i].ts > 0
    }
}

/// Lock and Rollback records say nothing about the value of a key.
pub open spec fn skippable(w: Write) -> bool {
    w.write_type == WriteType::Lock || w.write_type == WriteType::Rollback
}

/// Record `i` of `ws` is the Put that a read of `key` at `ts` sees, looking at
/// the records from `lo` on: it is a Put of `key` committed at or before `ts`,
/// and every earlier record of `key` committed at or before `ts` is a Lock or
/// a Rollback.
pub open spec fn visible_put_at(ws: Seq<Entry<Write>>, lo: int, i: int, key: Seq<u8>, ts: u64) -> bool {
    &&& ws[i].user_key@ == key
    &&& ws[i].ts <= ts
    &&& ws[i].value.write_type == WriteType::Put
    &&& forall|j: int|
        lo <= j < i && (#[trigger] ws[j]).user_key@ == key && ws[j].ts <= ts ==> skippable(ws[j].value)
}

/// `None` is below every key.
pub open spec fn above(k: Seq<u8>, last: Option<Seq<u8>>) -> bool {
    match last {
        Some(l) => key_lt(l, k),
        None => true,
    }
}

/// `k` sorts at or before `last`; nothing is at or below `None`.
pub open spec fn at_or_below(k: Seq<u8>, last: Option<Seq<u8>>) -> bool {
    match last {
        Some(l) => key_le(k, l),
        None => false,
    }
}

/// The cursor has passed exactly the records whose key is at or below `last`.
pub open spec fn cursor_after<V>(c: Cursor, es: Seq<Entry<V>>, last: Option<Seq<u8>>) -> bool {
    &&& forall|j: int| c.lo <= j < c.pos ==> at_or_below((#[trigger] es[j]).user_key@, last)
    &&& c.is_valid() ==> above(es[c.pos as int].user_key@, last)
}

/// The cursor's window holds exactly the records whose key lies in `range`.
pub open spec fn window_is_range<V>(c: Cursor, es: Seq<Entry<V>>, range: (Option<Vec<u8>>, Option<Vec<u8>>)) -> bool {
    forall|i: int| 0 <= i < es.len() ==> (c.lo <= i < c.hi <==> in_range((#[trigger] es[i]).user_key@, range.0, range.1))
}

/// Counter `c` after `n` more events.
pub open spec fn added(c: u64, n: int) -> u64 {
    if c + n >= u64::MAX { u64::MAX } else { (c + n) as u64 }
}

/// The `SEEK_BOUND` records from `p` on lie in the window, belong to `key`
/// and were committed after `ts`: stepping cannot reach a visible version.
pub open spec fn deep_history(ws: Seq<Entry<Write>>, hi: int, p: int, key: Seq<u8>, ts: u64) -> bool {
    &&& p + SEEK_BOUND <= hi
    &&& forall|j: int| p <= j < p + SEEK_BOUND ==> (#[trigger] ws[j]).user_key@ == key && ws[j].ts > ts
}

/// Record `f` is the first record of `key` in the window `[lo, hi)`
/// committed at or before `ts`.
pub open spec fn first_at_or_below(ws: Seq<Entry<Write>>, lo: int, hi: int, f: int, key: Seq<u8>, ts: u64) -> bool {
    &&& lo <= f < hi
    &&& ws[f].user_key@ == key
    &&& ws[f].ts <= ts
    &&& forall|j: int| lo <= j < f ==> !((#[trigger] ws[j]).user_key@ == key && ws[j].ts <= ts)
}

/// A default cursor, once created, stays with the same window.
pub open spec fn keeps_default(before: Option<Cursor>, after: Option<Cursor>) -> bool {
    before matches Some(c) ==> after matches Some(d) && d.lo == c.lo && d.hi == c.hi
}

/// `ForwardScanner` factory.
pub struct ForwardScannerBuilder {
    snapshot: Snapshot,
    fill_cache: bool,
    omit_value: bool,
    isolation_level: IsolationLevel,
    lower_bound: Option<Vec<u8>>,
    upper_bound: Option<Vec<u8>>,
    ts: u64,
}

impl ForwardScannerBuilder {
    pub closed spec fn view_snapshot(&self) -> Snapshot {
        self.snapshot
    }

    pub closed spec fn view_config(&self) -> (bool, bool, IsolationLevel, Option<Vec<u8>>, Option<Vec<u8>>, u64) {
        (self.fill_cache, self.omit_value, self.isolation_level, self.lower_bound, self.upper_bound, self.ts)
    }

    /// A builder reading `snapshot` at `ts`, filling the cache, with values,
    /// under snapshot isolation, over the whole key space.
    pub fn new(snapshot: Snapshot, ts: u64) -> (r: Self)
        ensures
            r.view_snapshot() == snapshot,
            r.view_config() == (true, false, IsolationLevel::SI, None::<Vec<u8>>, None::<Vec<u8>>, ts),
    {
        ForwardScannerBuilder {
            snapshot,
            fill_cache: true,
            omit_value: false,
            isolation_level: IsolationLevel::SI,
            lower_bound: None,
            upper_bound: None,
            ts,
        }
    }

    /// Set whether read operations should fill the cache.
    pub fn fill_cache(self, fill_cache: bool) -> (r: Self)
        ensures
            r.view_snapshot() == self.view_snapshot(),
            r.view_config() == (fill_cache, self.view_config().1, self.view_config().2, self.view_config().3, self.view_config().4, self.view_config().5),
    {
        ForwardScannerBuilder { fill_cache, ..self }
    }

    /// Set whether values are omitted: every returned value is then empty.
    pub fn omit_value(self, omit_value: bool) -> (r: Self)
        ensures
            r.view_snapshot() == self.view_snapshot(),
            r.view_config() == (self.view_config().0, omit_value, self.view_config().2, self.view_config().3, self.view_config().4, self.view_config().5),
    {
        ForwardScannerBuilder { omit_value, ..self }
    }

    /// Set the isolation level.
    pub fn isolation_level(self, isolation_level: IsolationLevel) -> (r: Self)
        ensures
            r.view_snapshot() == self.view_snapshot(),
            r.view_config() == (self.view_config().0, self.view_config().1, isolation_level, self.view_config().3, self.view_config().4, self.view_config().5),
    {
        ForwardScannerBuilder { isolation_level, ..self }
    }

    /// Limit the scan to user keys in `[lower_bound, upper_bound)`; `None`
    /// leaves that end open.
    pub fn range(self, lower_bound: Option<Vec<u8>>, upper_bound: Option<Vec<u8>>) -> (r: Self)
        ensures
            r.view_snapshot() == self.view_snapshot(),
            r.view_config() == (self.view_config().0, self.view_config().1, self.view_config().2, lower_bound, upper_bound, self.view_config().5),
    {
        ForwardScannerBuilder { lower_bound, upper_bound, ..self }
    }

    /// Build the scanner: lock and write cursors over the range, statistics
    /// zero, not started.
    pub fn build(self) -> (r: Result<ForwardScanner, Error>)
        requires
            self.view_snapshot().wf(),
        ensures
            r is Ok,
            r matches Ok(s) ==> s.inv() && !s.started() && s.statistics.is_zero()
                && s.snapshot == self.view_snapshot() && s.ts == self.view_config().5
                && s.omit_value == self.view_config().1
                && s.isolation_level == self.view_config().2
                && s.fill_cache == self.view_config().0
                && s.lower_bound == self.view_config().3 && s.upper_bound == self.view_config().4
                && s.scan_range@ == (self.view_config().3, self.view_config().4)
                && s.default_cursor is None
                && (forall|i: int| 0 <= i < s.snapshot.writes@.len() ==> (s.write_cursor.lo <= i < s.write_cursor.hi <==> in_range(s.snapshot.writes@[i].user_key@, self.view_config().3, self.view_config().4)))
                && (forall|i: int| 0 <= i < s.snapshot.locks@.len() ==> (s.lock_cursor.lo <= i < s.lock_cursor.hi <==> in_range(s.snapshot.locks@[i].user_key@, self.view_config().3, self.view_config().4))),
    {
        let ghost range = (self.lower_bound, self.upper_bound);
        let lock_cursor = Cursor::build(&self.snapshot.locks, &self.lower_bound, &self.upper_bound);
        let write_cursor = Cursor::build(&self.snapshot.writes, &self.lower_bound, &self.upper_bound);
        Ok(
            ForwardScanner {
                snapshot: self.snapshot,
                fill_cache: self.fill_cache,
                omit_value: self.omit_value,
                isolation_level: self.isolation_level,
                lower_bound: self.lower_bound,
                upper_bound: self.upper_bound,
                ts: self.ts,
                lock_cursor,
                write_cursor,
                default_cursor: None,
                is_started: false,
                statistics: Statistics::new(),
                last_key: Ghost(None),
                scan_range: Ghost((self.lower_bound, self.upper_bound)),
            },
        )
    }
}

/// Scans user keys upward from the lower bound. For each key, Rollback and
/// Lock records are passed over and older versions tried; under snapshot
/// isolation the key's lock is checked first.
pub struct ForwardScanner {
    pub snapshot: Snapshot,
    pub fill_cache: bool,
    pub omit_value: bool,
    pub isolation_level: IsolationLevel,
    /// Bounds for the default cursor, handed over when it is created.
    pub lower_bound: Option<Vec<u8>>,
    pub upper_bound: Option<Vec<u8>>,
    pub ts: u64,
    pub lock_cursor: Cursor,
    pub write_cursor: Cursor,
    /// Created on the first Put whose value is not inlined.
    pub default_cursor: Option<Cursor>,
    pub is_started: bool,
    pub statistics: Statistics,
    /// The last user key the scan has moved past.
    pub last_key: Ghost<Option<Seq<u8>>>,
    /// The range the scan was built with; every cursor's window is this range.
    pub scan_range: Ghost<(Option<Vec<u8>>, Option<Vec<u8>>)>,
}

impl ForwardScanner {
    pub open spec fn started(&self) -> bool {
        self.is_started
    }

    /// Both cursors are exhausted: every later call returns `None`.
    pub open spec fn finished(&self) -> bool {
        self.is_started && !self.write_cursor.is_valid() && !self.lock_cursor.is_valid()
    }

    /// The snapshot is well formed and every cursor lies in its family.
    pub open spec fn base_inv(&self) -> bool {
        &&& self.snapshot.wf()
        &&& self.write_cursor.wf(self.snapshot.writes@.len())
        &&& self.lock_cursor.wf(self.snapshot.locks@.len())
        &&& (self.default_cursor matches Some(c) ==> c.wf(self.snapshot.defaults@.len()))
        &&& window_is_range(self.write_cursor, self.snapshot.writes@, self.scan_range@)
        &&& window_is_range(self.lock_cursor, self.snapshot.locks@, self.scan_range@)
        &&& (self.default_cursor matches Some(c) ==> window_is_range(c, self.snapshot.defaults@, self.scan_range@))
        &&& (self.default_cursor is None ==> self.lower_bound == self.scan_range@.0 && self.upper_bound == self.scan_range@.1)
    }

    /// `base_inv`, and both cursors stand just past the last key the scan
    /// has dealt with.
    pub open spec fn inv(&self) -> bool {
        &&& self.base_inv()
        &&& (!self.is_started ==> self.last_key@ is None)
        &&& (self.is_started ==> cursor_after(self.write_cursor, self.snapshot.writes@, self.last_key@)
            && cursor_after(self.lock_cursor, self.snapshot.locks@, self.last_key@))
    }

    /// Nothing but cursors, statistics and progress changes during a scan.
    pub open spec fn same_scan(&self, other: &ForwardScanner) -> bool {
        &&& self.snapshot == other.snapshot
        &&& self.fill_cache == other.fill_cache
        &&& self.scan_range == other.scan_range
        &&& self.omit_value == other.omit_value
        &&& self.isolation_level == other.isolation_level
        &&& self.ts == other.ts
        &&& self.write_cursor.lo == other.write_cursor.lo
        &&& self.write_cursor.hi == other.write_cursor.hi
        &&& self.lock_cursor.lo == other.lock_cursor.lo
        &&& self.lock_cursor.hi == other.lock_cursor.hi
    }

    /// `v` is the value that the Put `w` of `key` stands for.
    pub open spec fn put_value(&self, w: Write, key: Seq<u8>, v: Seq<u8>) -> bool {
        if self.omit_value {
            v.len() == 0
        } else {
            match w.short_value {
                Some(s) => v == s@,
                None => exists|d: int|
                    0 <= d < self.snapshot.defaults@.len() && (#[trigger] self.snapshot.defaults@[d]).user_key@
                        == key && self.snapshot.defaults@[d].ts == w.start_ts
                        && self.snapshot.defaults@[d].value@ == v,
            }
        }
    }

    /// Lock `l` of the lock window belongs to `key` and is passed over by a
    /// read at the scan's timestamp.
    pub open spec fn ignored_lock_at(&self, key: Seq<u8>, l: int) -> bool {
        &&& self.lock_cursor.lo <= l < self.lock_cursor.hi
        &&& self.snapshot.locks@[l].user_key@ == key
        &&& lock_ignored(key, self.snapshot.locks@[l].value, self.ts)
    }

    /// `t` is the timestamp a read of `key` uses: under snapshot isolation
    /// the one an ignored lock of `key` hands out, else the scan's own.
    pub open spec fn read_ts_for(&self, key: Seq<u8>, t: u64) -> bool {
        if self.isolation_level == IsolationLevel::SI && exists|l: int| #[trigger] self.ignored_lock_at(key, l) {
            exists|l: int| #[trigger] self.ignored_lock_at(key, l) && t == ignored_read_ts(self.snapshot.locks@[l].value)
        } else {
            t == self.ts
        }
    }

    /// `(key, v)` is what the scan owes for `key`: the newest Put in range
    /// committed at or before the read timestamp, hidden by no newer Put or
    /// Delete at or before it, and its value.
    pub open spec fn visible(&self, key: Seq<u8>, v: Seq<u8>) -> bool {
        exists|i: int, t: u64|
            self.write_cursor.lo <= i < self.write_cursor.hi && self.read_ts_for(key, t)
                && #[trigger] visible_put_at(self.snapshot.writes@, self.write_cursor.lo as int, i, key, t)
                && self.put_value(self.snapshot.writes@[i].value, key, v)
    }

    /// `key` carries a lock in range that blocks a read at the scan's timestamp.
    pub open spec fn blocked_by_lock(&self, key: Seq<u8>) -> bool {
        exists|l: int|
            self.lock_cursor.lo <= l < self.lock_cursor.hi
                && (#[trigger] self.snapshot.locks@[l]).user_key@ == key
                && !lock_not_blocking(self.snapshot.locks@[l].value, self.ts)
                && !lock_ignored(key, self.snapshot.locks@[l].value, self.ts)
    }

    /// The scan's state other than the default cursor and the statistics is
    /// that of `other`.
    pub open spec fn same_cursors(&self, other: &ForwardScanner) -> bool {
        &&& self.same_scan(other)
        &&& self.write_cursor == other.write_cursor
        &&& self.lock_cursor == other.lock_cursor
        &&& self.is_started == other.is_started
        &&& self.last_key == other.last_key
    }

    /// Create the default cursor if it does not exist; it takes over the range.
    fn ensure_default_cursor(&mut self)
        requires
            old(self).base_inv(),
        ensures
            final(self).base_inv(),
            final(self).same_cursors(old(self)),
            final(self).statistics == old(self).statistics,
            final(self).default_cursor is Some,
            old(self).default_cursor is Some ==> *final(self) == *old(self),
            old(self).default_cursor is None ==> (final(self).default_cursor matches Some(c) && c.pos == c.lo
                && window_is_range(c, final(self).snapshot.defaults@, (old(self).lower_bound, old(self).upper_bound))
                && final(self).lower_bound is None && final(self).upper_bound is None),
    {
        if self.default_cursor.is_some() {
            return;
        }
        let c = Cursor::build(&self.snapshot.defaults, &self.lower_bound, &self.upper_bound);
        self.lower_bound = None;
        self.upper_bound = None;
        self.default_cursor = Some(c);
    }

    /// The value of the Put at record `i` of the write family: empty when
    /// values are omitted, the inlined value when there is one, else the
    /// default family's record for the key and the Put's start timestamp.
    fn load_data_by_write(&mut self, i: usize, user_key: &Vec<u8>) -> (r: Result<Vec<u8>, Error>)
        requires
            old(self).base_inv(),
            old(self).write_cursor.lo <= i < old(self).write_cursor.hi,
            old(self).snapshot.writes@[i as int].user_key@ == user_key@,
        ensures
            final(self).base_inv(),
            final(self).same_cursors(old(self)),
            stats_le(old(self).statistics, final(self).statistics),
            final(self).statistics.write == old(self).statistics.write,
            final(self).statistics.lock == old(self).statistics.lock,
            keeps_default(old(self).default_cursor, final(self).default_cursor),
            old(self).omit_value || old(self).snapshot.writes@[i as int].value.short_value is Some ==> *final(self) == *old(self),
            !old(self).omit_value && old(self).snapshot.writes@[i as int].value.short_value is None ==> (final(self).default_cursor matches Some(c)
                && (old(self).default_cursor is None ==> final(self).lower_bound is None && final(self).upper_bound is None)
                && final(self).statistics.data.seek <= old(self).statistics.data.seek + 1
                && final(self).statistics.data.next <= old(self).statistics.data.next + SEEK_BOUND
                && (r matches Ok(v) ==> c.is_valid()
                    && final(self).snapshot.defaults@[c.pos as int].user_key@ == user_key@
                    && final(self).snapshot.defaults@[c.pos as int].ts == old(self).snapshot.writes@[i as int].value.start_ts
                    && final(self).snapshot.defaults@[c.pos as int].value@ == v@)),
            r matches Ok(v) ==> old(self).put_value(old(self).snapshot.writes@[i as int].value, user_key@, v@),
            r matches Err(Error::DefaultNotFound { key, start_ts }) ==> key@ == user_key@
                && old(self).out_of_line_put(i as int, start_ts) && final(self).missing_default(key@, start_ts),
            r matches Err(e) ==> e is DefaultNotFound,
    {
        if self.omit_value {
            return Ok(Vec::new());
        }
        match &self.snapshot.writes[i].value.short_value {
            Some(v) => {
                return Ok(copy_bytes(v));
            },
            None => {},
        }
        let start_ts = self.snapshot.writes[i].value.start_ts;
        self.ensure_default_cursor();
        let mut c = match self.default_cursor {
            Some(c) => c,
            None => {
                return Err(Error::DefaultNotFound { key: copy_bytes(user_key), start_ts });
            },
        };
        c.near_seek(&self.snapshot.defaults, user_key, start_ts, &mut self.statistics.data);
        self.default_cursor = Some(c);
        if c.pos < c.hi {
            let d = &self.snapshot.defaults[c.pos];
            if key_equal(&d.user_key, user_key) && d.ts == start_ts {
                return Ok(copy_bytes(&d.value));
            }
        }
        proof {
            let ds = self.snapshot.defaults@;
            let ws = self.snapshot.writes@;
            assert(ws[i as int].user_key@ == user_key@);
            assert(in_range(user_key@, self.scan_range@.0, self.scan_range@.1));
            assert forall|d: int| 0 <= d < ds.len() implies !((#[trigger] ds[d]).user_key@ == user_key@
                && ds[d].ts == start_ts) by {
                lemma_key_lt_irreflexive(user_key@);
                if d > c.pos && c.lo <= d < c.hi {
                    assert(entry_lt(ds[c.pos as int].user_key@, ds[c.pos as int].ts, ds[d].user_key@, ds[d].ts));
                }
            }
        }
        Err(Error::DefaultNotFound { key: copy_bytes(user_key), start_ts })
    }

    /// Resolve the version of `user_key` visible at `ts`, starting from the
    /// write cursor at the newest record of `user_key`. Sets
    /// `met_next_user_key` when the cursor is left on a later key.
    fn get(&mut self, user_key: &Vec<u8>, ts: u64, met_next_user_key: &mut bool) -> (r: Result<
        Option<Vec<u8>>,
        Error,
    >)
        requires
            old(self).base_inv(),
            old(self).write_cursor.is_valid(),
            old(self).snapshot.writes@[old(self).write_cursor.pos as int].user_key@ == user_key@,
            forall|j: int|
                old(self).write_cursor.lo <= j < old(self).write_cursor.pos ==> key_lt(
                    (#[trigger] old(self).snapshot.writes@[j]).user_key@,
                    user_key@,
                ),
            !*old(met_next_user_key),
        ensures
            final(self).same_scan(old(self)),
            final(self).lock_cursor == old(self).lock_cursor,
            final(self).is_started == old(self).is_started,
            final(self).last_key == old(self).last_key,
            final(self).base_inv(),
            keeps_default(old(self).default_cursor, final(self).default_cursor),
            final(self).write_cursor.pos >= old(self).write_cursor.pos,
            stats_le(old(self).statistics, final(self).statistics),
            final(self).statistics.lock == old(self).statistics.lock,
            forall|j: int|
                final(self).write_cursor.lo <= j < final(self).write_cursor.pos ==> key_le(
                    (#[trigger] final(self).snapshot.writes@[j]).user_key@,
                    user_key@,
                ),
            *final(met_next_user_key) ==> final(self).write_cursor.is_valid() && key_lt(
                user_key@,
                final(self).snapshot.writes@[final(self).write_cursor.pos as int].user_key@,
            ),
            !*final(met_next_user_key) && final(self).write_cursor.is_valid() ==> final(self).snapshot.writes@[final(self).write_cursor.pos as int].user_key@ == user_key@,
            *final(met_next_user_key) ==> r matches Ok(None),
            r matches Ok(None) ==> final(self).default_cursor == old(self).default_cursor
                && final(self).statistics.data == old(self).statistics.data
                && final(self).lower_bound == old(self).lower_bound
                && final(self).upper_bound == old(self).upper_bound,
            r matches Ok(None) && !*final(met_next_user_key) && final(self).write_cursor.is_valid()
                ==> final(self).snapshot.writes@[final(self).write_cursor.pos as int].value.write_type == WriteType::Delete,
            final(self).statistics.write.seek == if deep_history(old(self).snapshot.writes@, old(self).write_cursor.hi as int, old(self).write_cursor.pos as int, user_key@, ts) {
                bumped(old(self).statistics.write.seek)
            } else {
                old(self).statistics.write.seek
            },
            forall|f: int| #[trigger] first_at_or_below(old(self).snapshot.writes@, old(self).write_cursor.lo as int, old(self).write_cursor.hi as int, f, user_key@, ts)
                ==> final(self).statistics.write.processed == added(old(self).statistics.write.processed,
                    final(self).write_cursor.pos - f + if !*final(met_next_user_key) && final(self).write_cursor.is_valid() { 1int } else { 0int }),
            (forall|f: int| !#[trigger] first_at_or_below(old(self).snapshot.writes@, old(self).write_cursor.lo as int, old(self).write_cursor.hi as int, f, user_key@, ts))
                ==> final(self).statistics.write.processed == old(self).statistics.write.processed,
            r matches Ok(Some(v)) ==> exists|i: int|
                old(self).write_cursor.lo <= i < old(self).write_cursor.hi
                    && #[trigger] visible_put_at(old(self).snapshot.writes@, old(self).write_cursor.lo as int, i, user_key@, ts)
                    && old(self).put_value(old(self).snapshot.writes@[i].value, user_key@, v@),
            r matches Ok(None) ==> forall|i: int|
                old(self).write_cursor.lo <= i < old(self).write_cursor.hi
                    ==> !#[trigger] visible_put_at(old(self).snapshot.writes@, old(self).write_cursor.lo as int, i, user_key@, ts),
            r matches Err(Error::DefaultNotFound { key, start_ts }) ==> key@ == user_key@ && exists|i: int|
                old(self).write_cursor.lo <= i < old(self).write_cursor.hi
                    && #[trigger] visible_put_at(old(self).snapshot.writes@, old(self).write_cursor.lo as int, i, user_key@, ts)
                    && old(self).out_of_line_put(i, start_ts) && final(self).missing_default(user_key@, start_ts),
            r matches Err(e) ==> e is DefaultNotFound,
    {
        let ghost ws = self.snapshot.writes@;
        let ghost lo = self.write_cursor.lo as int;
        let ghost hi = self.write_cursor.hi as int;
        let ghost uk = user_key@;
        let ghost s0 = self.statistics;
        let ghost start = self.write_cursor.pos as int;
        proof {
            assert forall|j: int| lo <= j < self.write_cursor.pos implies (#[trigger] ws[j]).user_key@ != uk by {
                lemma_key_lt_asymmetric(ws[j].user_key@, uk);
            }
            assert forall|j: int| lo <= j < self.write_cursor.pos implies entry_lt((#[trigger] ws[j]).user_key@, ws[j].ts, uk, ts) by {}
        }
        // Bounded `next`: look for a record of `user_key` committed at or
        // before `ts` within a few steps.
        let mut found = false;
        let mut i: usize = 0;
        while i < SEEK_BOUND && !found
            invariant
                self.base_inv(),
                self.same_scan(old(self)),
                self.lock_cursor == old(self).lock_cursor,
                self.is_started == old(self).is_started,
                self.last_key == old(self).last_key,
                self.snapshot.writes@ == ws,
                ws == old(self).snapshot.writes@,
                uk == user_key@,
                s0 == old(self).statistics,
                lo == old(self).write_cursor.lo,
                hi == old(self).write_cursor.hi,
                self.write_cursor.lo == lo,
                self.write_cursor.hi == hi,
                self.write_cursor.is_valid(),
                ws[self.write_cursor.pos as int].user_key@ == uk,
                forall|j: int| lo <= j < self.write_cursor.pos ==> (#[trigger] ws[j]).user_key@ != uk || ws[j].ts > ts,
                forall|j: int| lo <= j < self.write_cursor.pos ==> entry_lt((#[trigger] ws[j]).user_key@, ws[j].ts, uk, ts),
                self.write_cursor.pos >= old(self).write_cursor.pos,
                self.default_cursor == old(self).default_cursor,
                self.statistics.data == s0.data,
                self.lower_bound == old(self).lower_bound,
                self.upper_bound == old(self).upper_bound,
                forall|j: int| lo <= j < self.write_cursor.pos ==> key_le((#[trigger] ws[j]).user_key@, uk),
                found ==> ws[self.write_cursor.pos as int].ts <= ts,
                !found && i > 0 ==> ws[self.write_cursor.pos as int].ts > ts,
                i <= SEEK_BOUND,
                start == old(self).write_cursor.pos,
                i == 0 ==> self.write_cursor.pos == start,
                i > 0 ==> self.write_cursor.pos == start + i - 1,
                forall|j: int| start <= j <= self.write_cursor.pos ==> (#[trigger] ws[j]).user_key@ == uk,
                !found ==> forall|j: int| start <= j < start + i ==> (#[trigger] ws[j]).ts > ts,
                self.statistics.write.seek == s0.write.seek,
                self.statistics.write.processed == s0.write.processed,
                stats_le(s0, self.statistics),
                self.statistics.lock == s0.lock,
                !*met_next_user_key,
            decreases SEEK_BOUND - i,
        {
            if i > 0 {
                self.write_cursor.next(&mut self.statistics.write);
                assert(self.write_cursor.pos as int == start + i && i < SEEK_BOUND);
                if !self.write_cursor.valid() {
                    assert(!deep_history(ws, hi, start, uk, ts));
                    return Ok(None);
                }
                if !key_equal(&self.snapshot.writes[self.write_cursor.pos].user_key, user_key) {
                    proof {
                        let p = self.write_cursor.pos as int;
                        assert(entry_lt(ws[p - 1].user_key@, ws[p - 1].ts, ws[p].user_key@, ws[p].ts));
                        self.lemma_no_key_from(p, uk);
                        assert(ws[p].user_key@ != uk);
                        assert(!deep_history(ws, hi, start, uk, ts));
                    }
                    *met_next_user_key = true;
                    return Ok(None);
                }
            }
            if self.snapshot.writes[self.write_cursor.pos].ts <= ts {
                found = true;
            }
            i = i + 1;
        }
        // Not reached by stepping: seek directly.
        if !found {
            let ghost before = self.write_cursor.pos as int;
            assert(entry_lt(ws[before].user_key@, ws[before].ts, uk, ts));
            self.write_cursor.seek(&self.snapshot.writes, user_key, ts, &mut self.statistics.write);
            proof {
                if self.write_cursor.pos <= before {
                    assert(entry_lt(ws[self.write_cursor.pos as int].user_key@, ws[self.write_cursor.pos as int].ts, uk, ts));
                }
                assert forall|j: int| lo <= j < self.write_cursor.pos implies (#[trigger] ws[j]).user_key@ != uk || ws[j].ts > ts by {
                    if key_lt(ws[j].user_key@, uk) {
                        lemma_key_lt_asymmetric(ws[j].user_key@, uk);
                    }
                }
            }
            if !self.write_cursor.valid() {
                return Ok(None);
            }
            if !key_equal(&self.snapshot.writes[self.write_cursor.pos].user_key, user_key) {
                proof {
                    let p = self.write_cursor.pos as int;
                    lemma_key_lt_total(ws[p].user_key@, uk);
                    self.lemma_no_key_from(p, uk);
                }
                *met_next_user_key = true;
                return Ok(None);
            }
        }
        // Pass over Lock and Rollback records until a Put or a Delete.
        let ghost f0 = self.write_cursor.pos as int;
        let ghost seek_now = self.statistics.write.seek;
        proof {
            if found {
                assert(ws[f0].ts <= ts);
                assert(!deep_history(ws, hi, start, uk, ts));
            } else {
                assert(deep_history(ws, hi, start, uk, ts));
            }
            assert(first_at_or_below(ws, lo, hi, f0, uk, ts));
        }
        loop
            invariant
                first_at_or_below(ws, lo, hi, f0, uk, ts),
                start == old(self).write_cursor.pos,
                seek_now == if deep_history(ws, hi, start, uk, ts) { bumped(s0.write.seek) } else { s0.write.seek },
                self.statistics.write.seek == seek_now,
                self.write_cursor.pos >= f0,
                self.statistics.write.processed == added(s0.write.processed, self.write_cursor.pos - f0),
                self.base_inv(),
                self.same_scan(old(self)),
                self.lock_cursor == old(self).lock_cursor,
                self.is_started == old(self).is_started,
                self.last_key == old(self).last_key,
                self.snapshot.writes@ == ws,
                ws == old(self).snapshot.writes@,
                uk == user_key@,
                s0 == old(self).statistics,
                lo == old(self).write_cursor.lo,
                hi == old(self).write_cursor.hi,
                self.write_cursor.lo == lo,
                self.write_cursor.hi == hi,
                self.write_cursor.is_valid(),
                ws[self.write_cursor.pos as int].user_key@ == uk,
                ws[self.write_cursor.pos as int].ts <= ts,
                forall|j: int| lo <= j < self.write_cursor.pos && (#[trigger] ws[j]).user_key@ == uk && ws[j].ts <= ts ==> skippable(ws[j].value),
                self.write_cursor.pos >= old(self).write_cursor.pos,
                self.default_cursor == old(self).default_cursor,
                self.statistics.data == s0.data,
                self.lower_bound == old(self).lower_bound,
                self.upper_bound == old(self).upper_bound,
                forall|j: int| lo <= j < self.write_cursor.pos ==> key_le((#[trigger] ws[j]).user_key@, uk),
                stats_le(s0, self.statistics),
                self.statistics.lock == s0.lock,
                !*met_next_user_key,
            decreases hi - self.write_cursor.pos,
        {
            let p = self.write_cursor.pos;
            self.statistics.write.processed = bump(self.statistics.write.processed);
            match self.snapshot.writes[p].value.write_type {
                WriteType::Put => {
                    let r = self.load_data_by_write(p, user_key);
                    proof {
                        assert(visible_put_at(ws, lo, p as int, uk, ts));
                    }
                    return match r {
                        Ok(v) => Ok(Some(v)),
                        Err(e) => Err(e),
                    };
                },
                WriteType::Delete => {
                    proof {
                        assert forall|k: int| lo <= k < hi implies !#[trigger] visible_put_at(ws, lo, k, uk, ts) by {
                            if k > p {
                                assert(lo <= p < k);
                            }
                        }
                    }
                    return Ok(None);
                },
                _ => {},
            }
            self.write_cursor.next(&mut self.statistics.write);
            if !self.write_cursor.valid() {
                return Ok(None);
            }
            if !key_equal(&self.snapshot.writes[self.write_cursor.pos].user_key, user_key) {
                proof {
                    let q = self.write_cursor.pos as int;
                    assert(entry_lt(ws[q - 1].user_key@, ws[q - 1].ts, ws[q].user_key@, ws[q].ts));
                    self.lemma_no_key_from(q, uk);
                }
                *met_next_user_key = true;
                return Ok(None);
            }
            proof {
                let q = self.write_cursor.pos as int;
                assert(entry_lt(ws[q - 1].user_key@, ws[q - 1].ts, ws[q].user_key@, ws[q].ts));
                lemma_key_lt_irreflexive(uk);
            }
        }
    }

    /// Move the write cursor past every record of `current_user_key`: a few
    /// `next` steps, then an internal seek to the end of the key's records.
    fn move_write_cursor_to_next_user_key(&mut self, current_user_key: &Vec<u8>)
        requires
            old(self).base_inv(),
            forall|j: int|
                old(self).write_cursor.lo <= j < old(self).write_cursor.pos ==> key_le(
                    (#[trigger] old(self).snapshot.writes@[j]).user_key@,
                    current_user_key@,
                ),
            old(self).write_cursor.is_valid() ==> key_le(
                current_user_key@,
                old(self).snapshot.writes@[old(self).write_cursor.pos as int].user_key@,
            ),
        ensures
            final(self).base_inv(),
            final(self).same_scan(old(self)),
            final(self).lock_cursor == old(self).lock_cursor,
            final(self).default_cursor == old(self).default_cursor,
            final(self).is_started == old(self).is_started,
            final(self).last_key == old(self).last_key,
            final(self).statistics.lock == old(self).statistics.lock,
            final(self).statistics.data == old(self).statistics.data,
            cf_le(old(self).statistics.write, final(self).statistics.write),
            final(self).statistics.write.processed == old(self).statistics.write.processed,
            final(self).statistics.write.seek == old(self).statistics.write.seek,
            final(self).lower_bound == old(self).lower_bound,
            final(self).upper_bound == old(self).upper_bound,
            final(self).write_cursor.pos >= old(self).write_cursor.pos,
            old(self).write_cursor.is_valid() && old(self).snapshot.writes@[old(self).write_cursor.pos as int].user_key@
                == current_user_key@ ==> final(self).write_cursor.pos > old(self).write_cursor.pos,
            forall|j: int|
                final(self).write_cursor.lo <= j < final(self).write_cursor.pos ==> key_le(
                    (#[trigger] final(self).snapshot.writes@[j]).user_key@,
                    current_user_key@,
                ),
            final(self).write_cursor.is_valid() ==> key_lt(
                current_user_key@,
                final(self).snapshot.writes@[final(self).write_cursor.pos as int].user_key@,
            ),
    {
        let ghost ws = self.snapshot.writes@;
        let ghost uk = current_user_key@;
        if !self.write_cursor.valid() {
            return;
        }
        if !key_equal(&self.snapshot.writes[self.write_cursor.pos].user_key, current_user_key) {
            return;
        }
        let mut i: usize = 1;
        while i < SEEK_BOUND
            invariant
                self.base_inv(),
                self.same_scan(old(self)),
                self.lock_cursor == old(self).lock_cursor,
                self.default_cursor == old(self).default_cursor,
                self.is_started == old(self).is_started,
                self.last_key == old(self).last_key,
                self.statistics.lock == old(self).statistics.lock,
                self.statistics.data == old(self).statistics.data,
                cf_le(old(self).statistics.write, self.statistics.write),
                self.statistics.write.processed == old(self).statistics.write.processed,
                self.statistics.write.seek == old(self).statistics.write.seek,
                self.lower_bound == old(self).lower_bound,
                self.upper_bound == old(self).upper_bound,
                ws == self.snapshot.writes@,
                uk == current_user_key@,
                self.write_cursor.is_valid(),
                ws[self.write_cursor.pos as int].user_key@ == uk,
                self.write_cursor.pos >= old(self).write_cursor.pos,
                forall|j: int| self.write_cursor.lo <= j < self.write_cursor.pos ==> key_le((#[trigger] ws[j]).user_key@, uk),
            decreases SEEK_BOUND - i,
        {
            self.write_cursor.next(&mut self.statistics.write);
            if !self.write_cursor.valid() {
                return;
            }
            if !key_equal(&self.snapshot.writes[self.write_cursor.pos].user_key, current_user_key) {
                proof {
                    let q = self.write_cursor.pos as int;
                    assert(entry_lt(ws[q - 1].user_key@, ws[q - 1].ts, ws[q].user_key@, ws[q].ts));
                }
                return;
            }
            i = i + 1;
        }
        let ghost before = self.write_cursor.pos as int;
        proof {
            assert forall|j: int| self.write_cursor.lo <= j <= before implies entry_lt((#[trigger] ws[j]).user_key@, ws[j].ts, uk, 0) by {
                assert(ws[j].ts > 0);
            }
        }
        self.write_cursor.internal_seek(&self.snapshot.writes, current_user_key, 0, &mut self.statistics.write);
        proof {
            let p = self.write_cursor.pos as int;
            if p <= before {
                assert(entry_lt(ws[p].user_key@, ws[p].ts, uk, 0));
            }
            if self.write_cursor.is_valid() {
                assert(ws[p].ts > 0);
                lemma_key_lt_total(ws[p].user_key@, uk);
            }
        }
    }

    /// No record of a sorted family in the cursor's window has `k`, when `k`
    /// lies above what the cursor has passed and below where it stands.
    proof fn lemma_key_absent<V>(es: Seq<Entry<V>>, c: Cursor, last: Option<Seq<u8>>, k: Seq<u8>)
        requires
            sorted(es),
            c.wf(es.len()),
            cursor_after(c, es, last),
            above(k, last),
            c.is_valid() ==> key_lt(k, es[c.pos as int].user_key@),
        ensures
            forall|j: int| c.lo <= j < c.hi ==> (#[trigger] es[j]).user_key@ != k,
    {
        assert forall|j: int| c.lo <= j < c.hi implies (#[trigger] es[j]).user_key@ != k by {
            if j < c.pos {
                lemma_key_le_lt(es[j].user_key@, last->Some_0, k);
            } else {
                let p = c.pos as int;
                if j > p {
                    assert(entry_lt(es[p].user_key@, es[p].ts, es[j].user_key@, es[j].ts));
                    if es[p].user_key@ != es[j].user_key@ {
                        crate::key::lemma_key_lt_transitive(k, es[p].user_key@, es[j].user_key@);
                    }
                }
                lemma_key_lt_asymmetric(k, es[j].user_key@);
            }
        }
    }

    /// A key with no record in either window is owed nothing.
    proof fn lemma_absent_not_owed(&self, k: Seq<u8>)
        requires
            forall|j: int| self.write_cursor.lo <= j < self.write_cursor.hi ==> (#[trigger] self.snapshot.writes@[j]).user_key@ != k,
            forall|j: int| self.lock_cursor.lo <= j < self.lock_cursor.hi ==> (#[trigger] self.snapshot.locks@[j]).user_key@ != k,
        ensures
            !self.owes(k),
    {
        assert(!self.blocked_by_lock(k));
        assert forall|i: int, t: u64| self.write_cursor.lo <= i < self.write_cursor.hi implies
            !#[trigger] visible_put_at(self.snapshot.writes@, self.write_cursor.lo as int, i, k, t) by {
            assert(self.snapshot.writes@[i].user_key@ != k);
        }
    }

    /// Locks have distinct keys.
    proof fn lemma_lock_unique(&self, a: int, b: int)
        requires
            self.snapshot.wf(),
            0 <= a < self.snapshot.locks@.len(),
            0 <= b < self.snapshot.locks@.len(),
            self.snapshot.locks@[a].user_key@ == self.snapshot.locks@[b].user_key@,
        ensures
            a == b,
    {
        if a < b {
            assert(key_lt(self.snapshot.locks@[a].user_key@, self.snapshot.locks@[b].user_key@));
            lemma_key_lt_irreflexive(self.snapshot.locks@[a].user_key@);
        } else if b < a {
            assert(key_lt(self.snapshot.locks@[b].user_key@, self.snapshot.locks@[a].user_key@));
            lemma_key_lt_irreflexive(self.snapshot.locks@[a].user_key@);
        }
    }

    /// In the sorted write family, once a record above `uk` is reached, no
    /// later record belongs to `uk`.
    proof fn lemma_no_key_from(&self, p: int, uk: Seq<u8>)
        requires
            self.snapshot.wf(),
            0 <= p < self.snapshot.writes@.len(),
            key_lt(uk, self.snapshot.writes@[p].user_key@),
        ensures
            forall|k: int| p <= k < self.snapshot.writes@.len() ==> key_lt(uk, (#[trigger] self.snapshot.writes@[k]).user_key@)
                && self.snapshot.writes@[k].user_key@ != uk,
    {
        let ws = self.snapshot.writes@;
        assert forall|k: int| p <= k < ws.len() implies key_lt(uk, (#[trigger] ws[k]).user_key@)
            && ws[k].user_key@ != uk by {
            if k > p {
                assert(entry_lt(ws[p].user_key@, ws[p].ts, ws[k].user_key@, ws[k].ts));
                if ws[p].user_key@ != ws[k].user_key@ {
                    crate::key::lemma_key_lt_transitive(uk, ws[p].user_key@, ws[k].user_key@);
                }
            }
            lemma_key_lt_asymmetric(uk, ws[k].user_key@);
        }
    }

    /// The next visible `(user key, value)` in ascending key order, `None`
    /// once the range is exhausted, or the lock error of a key that a lock
    /// blocks under snapshot isolation; after that error the scan goes on
    /// with the following key.
    pub fn read_next(&mut self) -> (r: Result<Option<(Vec<u8>, Vec<u8>)>, Error>)
        requires
            old(self).inv(),
        ensures
            final(self).inv(),
            final(self).started(),
            final(self).same_scan(old(self)),
            stats_le(old(self).statistics, final(self).statistics),
            keeps_default(old(self).default_cursor, final(self).default_cursor),
            old(self).finished() ==> r matches Ok(None),
            r matches Ok(None) ==> final(self).finished(),
            r matches Ok(Some((k, v))) ==> !(old(self).isolation_level == IsolationLevel::SI
                && old(self).blocked_by_lock(k@)),
            r matches Ok(Some((k, v))) ==> above(k@, old(self).last_key@)
                && final(self).last_key@ == Some(k@) && old(self).visible(k@, v@),
            r matches Err(Error::KeyIsLocked { .. }) ==> final(self).default_cursor == old(self).default_cursor
                && final(self).statistics.data == old(self).statistics.data
                && final(self).lower_bound == old(self).lower_bound
                && final(self).upper_bound == old(self).upper_bound,
            r matches Err(Error::KeyIsLocked { key, .. }) ==> old(self).isolation_level
                == IsolationLevel::SI && above(key@, old(self).last_key@)
                && final(self).last_key@ == Some(key@) && old(self).blocked_by_lock(key@),
            old(self).isolation_level == IsolationLevel::RC ==> !(r matches Err(
                Error::KeyIsLocked { .. },
            )),
            r matches Ok(None) ==> forall|k: Seq<u8>|
                above(k, old(self).last_key@) ==> !#[trigger] old(self).owes(k),
            r matches Ok(Some((key, v))) ==> forall|k: Seq<u8>|
                above(k, old(self).last_key@) && key_lt(k, key@) ==> !#[trigger] old(self).owes(k),
            r matches Err(Error::KeyIsLocked { key, .. }) ==> forall|k: Seq<u8>|
                above(k, old(self).last_key@) && key_lt(k, key@) ==> !#[trigger] old(self).owes(k),
            r matches Err(Error::DefaultNotFound { key, start_ts }) ==> above(key@, old(self).last_key@)
                && final(self).last_key@ == Some(key@) && final(self).missing_default(key@, start_ts)
                && (exists|i: int, t: u64|
                old(self).write_cursor.lo <= i < old(self).write_cursor.hi && old(self).read_ts_for(key@, t)
                    && #[trigger] visible_put_at(old(self).snapshot.writes@, old(self).write_cursor.lo as int, i, key@, t)
                    && old(self).out_of_line_put(i, start_ts))
                && forall|k: Seq<u8>|
                above(k, old(self).last_key@) && key_lt(k, key@) ==> !#[trigger] old(self).owes(k),
    {
        if !self.is_started {
            self.write_cursor.seek_to_first(&mut self.statistics.write);
            self.lock_cursor.seek_to_first(&mut self.statistics.lock);
            self.is_started = true;
        }
        proof {
            assert forall|k: Seq<u8>| above(k, old(self).last_key@) && at_or_below(k, self.last_key@) implies !#[trigger] old(self).owes(k) by {
                if let Some(l) = self.last_key@ {
                    if key_lt(l, k) {
                        lemma_key_lt_asymmetric(l, k);
                    }
                }
            }
        }
        loop
            invariant
                self.inv(),
                self.is_started,
                self.same_scan(old(self)),
                stats_le(old(self).statistics, self.statistics),
                keeps_default(old(self).default_cursor, self.default_cursor),
                self.default_cursor == old(self).default_cursor,
                self.statistics.data == old(self).statistics.data,
                self.lower_bound == old(self).lower_bound,
                self.upper_bound == old(self).upper_bound,
                old(self).finished() ==> self.write_cursor == old(self).write_cursor
                    && self.lock_cursor == old(self).lock_cursor,
                match old(self).last_key@ {
                    Some(o) => self.last_key@ matches Some(n) && key_le(o, n),
                    None => true,
                },
                forall|k: Seq<u8>| above(k, old(self).last_key@) && at_or_below(k, self.last_key@) ==> !#[trigger] old(self).owes(k),
            decreases self.write_cursor.hi - self.write_cursor.pos + self.lock_cursor.hi
                - self.lock_cursor.pos,
        {
            let ghost ws = self.snapshot.writes@;
            let ghost ls = self.snapshot.locks@;
            let ghost last = self.last_key@;
            let ghost wpos = self.write_cursor.pos as int;
            let ghost lpos = self.lock_cursor.pos as int;
            let w_valid = self.write_cursor.valid();
            let l_valid = self.lock_cursor.valid();
            if !w_valid && !l_valid {
                proof {
                    assert forall|k: Seq<u8>| above(k, old(self).last_key@) implies !#[trigger] old(self).owes(k) by {
                        if above(k, last) {
                            Self::lemma_key_absent(ws, self.write_cursor, last, k);
                            Self::lemma_key_absent(ls, self.lock_cursor, last, k);
                            old(self).lemma_absent_not_owed(k);
                        } else {
                            if let Some(l) = last {
                                lemma_key_lt_total(k, l);
                            }
                        }
                    }
                }
                return Ok(None);
            }
            let has_write: bool;
            let has_lock: bool;
            let current_user_key: Vec<u8>;
            if w_valid && l_valid {
                let wk = &self.snapshot.writes[self.write_cursor.pos].user_key;
                let lk = &self.snapshot.locks[self.lock_cursor.pos].user_key;
                if key_less(wk, lk) {
                    current_user_key = copy_bytes(wk);
                    has_write = true;
                    has_lock = false;
                } else if key_less(lk, wk) {
                    current_user_key = copy_bytes(lk);
                    has_write = false;
                    has_lock = true;
                } else {
                    proof {
                        lemma_key_lt_total(wk@, lk@);
                    }
                    current_user_key = copy_bytes(lk);
                    has_write = true;
                    has_lock = true;
                }
            } else if w_valid {
                current_user_key = copy_bytes(&self.snapshot.writes[self.write_cursor.pos].user_key);
                has_write = true;
                has_lock = false;
            } else {
                current_user_key = copy_bytes(&self.snapshot.locks[self.lock_cursor.pos].user_key);
                has_write = false;
                has_lock = true;
            }
            let ghost uk = current_user_key@;
            proof {
                assert(above(uk, last));
                assert forall|j: int| self.write_cursor.lo <= j < wpos implies key_lt((#[trigger] ws[j]).user_key@, uk) by {
                    lemma_key_le_lt(ws[j].user_key@, last->Some_0, uk);
                }
                assert forall|j: int| self.lock_cursor.lo <= j < lpos implies key_lt((#[trigger] ls[j]).user_key@, uk) by {
                    lemma_key_le_lt(ls[j].user_key@, last->Some_0, uk);
                }
                assert forall|k: Seq<u8>| above(k, last) && key_lt(k, uk) implies !#[trigger] old(self).owes(k) by {
                    if w_valid && !has_write {
                        crate::key::lemma_key_lt_transitive(k, uk, ws[wpos].user_key@);
                    }
                    if l_valid && !has_lock {
                        crate::key::lemma_key_lt_transitive(k, uk, ls[lpos].user_key@);
                    }
                    Self::lemma_key_absent(ws, self.write_cursor, last, k);
                    Self::lemma_key_absent(ls, self.lock_cursor, last, k);
                    old(self).lemma_absent_not_owed(k);
                }
                if !has_write {
                    Self::lemma_key_absent(ws, self.write_cursor, last, uk);
                }
                if !has_lock {
                    Self::lemma_key_absent(ls, self.lock_cursor, last, uk);
                }
            }
            let mut result: Result<Option<Vec<u8>>, Error> = Ok(None);
            let mut get_ts = self.ts;
            let mut met_next_user_key = false;
            if has_lock {
                match self.isolation_level {
                    IsolationLevel::SI => {
                        let c = check_lock(&current_user_key, self.ts, &self.snapshot.locks[self.lock_cursor.pos].value);
                        match c {
                            CheckLockResult::Locked(e) => {
                                result = Err(e);
                            },
                            CheckLockResult::NotLocked => {},
                            CheckLockResult::Ignored(t) => {
                                get_ts = t;
                            },
                        }
                    },
                    IsolationLevel::RC => {},
                }
                self.lock_cursor.next(&mut self.statistics.lock);
                proof {
                    if lpos + 1 < self.lock_cursor.hi {
                        assert(key_lt(ls[lpos].user_key@, ls[lpos + 1].user_key@));
                    }
                }
            }
            proof {
                let lk = ls[lpos].value;
                if has_lock && self.isolation_level == IsolationLevel::SI {
                    assert(old(self).ignored_lock_at(uk, lpos) <==> lock_ignored(uk, lk, self.ts));
                    assert forall|l: int| #[trigger] old(self).ignored_lock_at(uk, l) implies l == lpos by {
                        old(self).lemma_lock_unique(l, lpos);
                    }
                    if lock_ignored(uk, lk, self.ts) {
                        assert(old(self).ignored_lock_at(uk, lpos));
                        assert(get_ts == ignored_read_ts(lk));
                    } else {
                        assert(get_ts == self.ts);
                        assert(!exists|l: int| #[trigger] old(self).ignored_lock_at(uk, l));
                    }
                    if result is Ok {
                        assert(lock_not_blocking(lk, self.ts) || lock_ignored(uk, lk, self.ts));
                        assert forall|l: int| old(self).lock_cursor.lo <= l < old(self).lock_cursor.hi && (#[trigger] ls[l]).user_key@ == uk
                            implies lock_not_blocking(ls[l].value, self.ts) || lock_ignored(uk, ls[l].value, self.ts) by {
                            old(self).lemma_lock_unique(l, lpos);
                        }
                        assert(!old(self).blocked_by_lock(uk));
                    }
                } else if !has_lock {
                    assert(!exists|l: int| #[trigger] old(self).ignored_lock_at(uk, l));
                    assert(!old(self).blocked_by_lock(uk));
                }
                assert forall|t: u64| old(self).read_ts_for(uk, t) <==> t == get_ts by {
                    if old(self).read_ts_for(uk, t) && has_lock && self.isolation_level == IsolationLevel::SI && lock_ignored(uk, ls[lpos].value, self.ts) {
                        let l = choose|l: int| #[trigger] old(self).ignored_lock_at(uk, l) && t == ignored_read_ts(old(self).snapshot.locks@[l].value);
                        old(self).lemma_lock_unique(l, lpos);
                    }
                }
            }
            assert(old(self).read_ts_for(uk, get_ts));
            if has_write {
                if result.is_ok() {
                    result = self.get(&current_user_key, get_ts, &mut met_next_user_key);
                }
                if !met_next_user_key {
                    self.move_write_cursor_to_next_user_key(&current_user_key);
                } else {
                    proof {
                        lemma_key_lt_irreflexive(uk);
                    }
                }
            }
            proof {
                if !has_lock && l_valid {
                    assert(key_lt(uk, ls[lpos].user_key@));
                }
                if !has_write && w_valid {
                    assert(key_lt(uk, ws[wpos].user_key@));
                }
                match old(self).last_key@ {
                    Some(o) => {
                        lemma_key_le_lt(o, last->Some_0, uk);
                    },
                    None => {},
                }
                if result matches Ok(None) {
                    assert forall|i: int, t: u64| old(self).write_cursor.lo <= i < old(self).write_cursor.hi && old(self).read_ts_for(uk, t)
                        implies !#[trigger] visible_put_at(ws, old(self).write_cursor.lo as int, i, uk, t) by {
                        assert(t == get_ts);
                        if !has_write {
                            assert(ws[i].user_key@ != uk);
                        }
                    }
                    assert(!old(self).owes(uk));
                }
                assert forall|k: Seq<u8>| above(k, old(self).last_key@) && key_lt(k, uk) implies !#[trigger] old(self).owes(k) by {
                    if let Some(l) = last {
                        lemma_key_lt_total(k, l);
                    }
                }
            }
            self.last_key = Ghost(Some(uk));
            match result {
                Ok(Some(v)) => {
                    return Ok(Some((current_user_key, v)));
                },
                Ok(None) => {},
                Err(e) => {
                    return Err(e);
                },
            }
        }
    }

    /// The scan has something to report for `key`: a lock error under
    /// snapshot isolation, or a visible Put.
    pub open spec fn owes(&self, key: Seq<u8>) -> bool {
        (self.isolation_level == IsolationLevel::SI && self.blocked_by_lock(key)) || exists|i: int, t: u64|
            self.write_cursor.lo <= i < self.write_cursor.hi && self.read_ts_for(key, t)
                && #[trigger] visible_put_at(self.snapshot.writes@, self.write_cursor.lo as int, i, key, t)
    }

    /// The default cursor exists and the default family holds no record of
    /// `key` written at `start_ts`.
    pub open spec fn missing_default(&self, key: Seq<u8>, start_ts: u64) -> bool {
        self.default_cursor is Some && forall|d: int|
            0 <= d < self.snapshot.defaults@.len() ==> !((#[trigger] self.snapshot.defaults@[d]).user_key@ == key
                && self.snapshot.defaults@[d].ts == start_ts)
    }

    /// The Put at record `i` keeps its value in the default family, under
    /// `start_ts`, and values are not omitted.
    pub open spec fn out_of_line_put(&self, i: int, start_ts: u64) -> bool {
        &&& !self.omit_value
        &&& self.snapshot.writes@[i].value.short_value is None
        &&& self.snapshot.writes@[i].value.start_ts == start_ts
    }

    /// Take out the statistics collected so far and reset them.
    pub fn take_statistics(&mut self) -> (r: Statistics)
        ensures
            r == old(self).statistics,
            final(self).statistics.is_zero(),
            *final(self) == (ForwardScanner { statistics: final(self).statistics, ..*old(self) }),
    {
        let r = self.statistics;
        self.statistics = Statistics::new();
        r
    }
}

} // verus!

verus! {

/// Two scans over the same writes and values, at the same timestamp and
/// isolation level, over the same windows.
pub open spec fn same_reads(a: &ForwardScanner, b: &ForwardScanner) -> bool {
    &&& a.snapshot.writes == b.snapshot.writes
    &&& a.snapshot.defaults == b.snapshot.defaults
    &&& a.ts == b.ts
    &&& a.isolation_level == b.isolation_level
    &&& a.write_cursor.lo == b.write_cursor.lo
    &&& a.write_cursor.hi == b.write_cursor.hi
}

/// Omitting values changes no key a scan owes, and turns each value into the
/// empty one: a scan with `omit_value` reports the same keys, with empty values.
pub proof fn lemma_omit_value_same_keys(a: &ForwardScanner, b: &ForwardScanner, k: Seq<u8>, v: Seq<u8>)
    requires
        same_reads(a, b),
        a.snapshot.locks == b.snapshot.locks,
        a.lock_cursor.lo == b.lock_cursor.lo,
        a.lock_cursor.hi == b.lock_cursor.hi,
        !a.omit_value,
        b.omit_value,
    ensures
        a.owes(k) == b.owes(k),
        a.visible(k, v) ==> b.visible(k, Seq::empty()),
        b.visible(k, v) ==> v.len() == 0,
{
    assert(a.snapshot.locks@ == b.snapshot.locks@);
    assert forall|l: int| #[trigger] a.ignored_lock_at(k, l) == b.ignored_lock_at(k, l) by {}
    assert forall|t: u64| a.read_ts_for(k, t) implies #[trigger] b.read_ts_for(k, t) by {
        if a.isolation_level == IsolationLevel::SI && exists|l: int| #[trigger] a.ignored_lock_at(k, l) {
            let l = choose|l: int| #[trigger] a.ignored_lock_at(k, l) && t == ignored_read_ts(a.snapshot.locks@[l].value);
            assert(b.ignored_lock_at(k, l));
        } else if exists|l: int| #[trigger] b.ignored_lock_at(k, l) {
            let l = choose|l: int| #[trigger] b.ignored_lock_at(k, l);
            assert(a.ignored_lock_at(k, l));
        }
    }
    assert forall|t: u64| b.read_ts_for(k, t) implies #[trigger] a.read_ts_for(k, t) by {
        if b.isolation_level == IsolationLevel::SI && exists|l: int| #[trigger] b.ignored_lock_at(k, l) {
            let l = choose|l: int| #[trigger] b.ignored_lock_at(k, l) && t == ignored_read_ts(b.snapshot.locks@[l].value);
            assert(a.ignored_lock_at(k, l));
        } else if exists|l: int| #[trigger] a.ignored_lock_at(k, l) {
            let l = choose|l: int| #[trigger] a.ignored_lock_at(k, l);
            assert(b.ignored_lock_at(k, l));
        }
    }
    assert(a.blocked_by_lock(k) == b.blocked_by_lock(k));
    if a.visible(k, v) {
        let (i, t) = choose|i: int, t: u64|
            a.write_cursor.lo <= i < a.write_cursor.hi && a.read_ts_for(k, t)
                && #[trigger] visible_put_at(a.snapshot.writes@, a.write_cursor.lo as int, i, k, t)
                && a.put_value(a.snapshot.writes@[i].value, k, v);
        assert(b.put_value(b.snapshot.writes@[i].value, k, Seq::empty()));
    }
}

/// Under read committed, locks neither raise errors nor change what a scan
/// reports: two scans that differ only in their locks owe the same keys with
/// the same values.
pub proof fn lemma_rc_ignores_locks(a: &ForwardScanner, b: &ForwardScanner, k: Seq<u8>, v: Seq<u8>)
    requires
        same_reads(a, b),
        a.omit_value == b.omit_value,
        a.isolation_level == IsolationLevel::RC,
    ensures
        a.owes(k) == b.owes(k),
        a.visible(k, v) == b.visible(k, v),
        forall|t: u64| a.read_ts_for(k, t) <==> t == a.ts,
{
    assert(forall|t: u64| a.read_ts_for(k, t) == b.read_ts_for(k, t));
}

} // verus!
