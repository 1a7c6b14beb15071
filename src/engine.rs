//! The storage engine seen by a scan: sorted column families held in memory,
//! cursors over a bounded window of one family, and read statistics.
use vstd::prelude::*;
use crate::key::{key_less, key_lt};

verus! {

/// Number of `next` steps tried before a cursor falls back to `seek`.
pub const SEEK_BOUND: usize = 8;

/// One record of a column family: a user key, a timestamp (commit ts in the
/// write family, start ts in the default family, unused in the lock family)
/// and the record itself.
#[derive(Clone, Debug)]
pub struct Entry<V> {
    pub user_key: Vec<u8>,
    pub ts: u64,
    pub value: V,
}

/// Storage order of `(user key, ts)`: keys ascending, and within a key larger
/// timestamps first.
pub open spec fn entry_lt(ak: Seq<u8>, ats: u64, bk: Seq<u8>, bts: u64) -> bool {
    key_lt(ak, bk) || (ak == bk && ats > bts)
}

/// `a` sorts at or before `b`.
pub open spec fn key_le(a: Seq<u8>, b: Seq<u8>) -> bool {
    a == b || key_lt(a, b)
}

/// Records strictly ascending in storage order.
pub open spec fn sorted<V>(es: Seq<Entry<V>>) -> bool {
    forall|i: int, j: int|
        0 <= i < j < es.len() ==> #[trigger] entry_lt(
            es[i].user_key@,
            es[i].ts,
            es[j].user_key@,
            es[j].ts,
        )
}

/// Saturating increment, so that counters never decrease.
pub open spec fn bumped(c: u64) -> u64 {
    if c == u64::MAX { c } else { (c + 1) as u64 }
}

/// Count one more event.
pub fn bump(c: u64) -> (r: u64)
    ensures
        r == bumped(c),
{
    if c == u64::MAX { c } else { c + 1 }
}

/// Read counters of one column family.
#[derive(Clone, Copy, Debug, PartialEq, Eq, Structural)]
pub struct CfStatistics {
    pub seek: u64,
    pub next: u64,
    pub processed: u64,
}

/// Read counters of the three column families.
#[derive(Clone, Copy, Debug, PartialEq, Eq, Structural)]
pub struct Statistics {
    pub lock: CfStatistics,
    pub write: CfStatistics,
    pub data: CfStatistics,
}

pub open spec fn cf_le(a: CfStatistics, b: CfStatistics) -> bool {
    a.seek <= b.seek && a.next <= b.next && a.processed <= b.processed
}

/// Every counter of `a` is at most the same counter of `b`.
pub open spec fn stats_le(a: Statistics, b: Statistics) -> bool {
    cf_le(a.lock, b.lock) && cf_le(a.write, b.write) && cf_le(a.data, b.data)
}

impl CfStatistics {
    pub open spec fn is_zero(self) -> bool {
        self.seek == 0 && self.next == 0 && self.processed == 0
    }

    pub fn new() -> (r: CfStatistics)
        ensures
            r.is_zero(),
    {
        CfStatistics { seek: 0, next: 0, processed: 0 }
    }
}

impl Statistics {
    /// All counters zero.
    pub open spec fn is_zero(self) -> bool {
        self.lock.is_zero() && self.write.is_zero() && self.data.is_zero()
    }

    pub fn new() -> (r: Statistics)
        ensures
            r.is_zero(),
    {
        Statistics { lock: CfStatistics::new(), write: CfStatistics::new(), data: CfStatistics::new() }
    }
}

impl Default for Statistics {
    fn default() -> (r: Statistics)
        ensures
            r.is_zero(),
    {
        Statistics::new()
    }
}

/// A position in the window `[lo, hi)` of a column family. The window holds
/// the records whose user key lies in the cursor's range.
#[derive(Clone, Copy, Debug)]
pub struct Cursor {
    pub pos: usize,
    pub lo: usize,
    pub hi: usize,
}

impl Cursor {
    pub open spec fn wf(self, len: nat) -> bool {
        self.lo <= self.pos <= self.hi <= len
    }

    pub open spec fn is_valid(self) -> bool {
        self.pos < self.hi
    }

    /// Whether the cursor points at a record.
    pub fn valid(&self) -> (r: bool)
        ensures
            r == self.is_valid(),
    {
        self.pos < self.hi
    }

    /// A cursor over the records whose user key lies in `[lower, upper)`;
    /// `None` leaves that end open. It starts at the window's first record.
    pub fn build<V>(es: &Vec<Entry<V>>, lower: &Option<Vec<u8>>, upper: &Option<Vec<u8>>) -> (r:
        Cursor)
        requires
            sorted(es@),
        ensures
            r.wf(es@.len()),
            r.pos == r.lo,
            forall|i: int|
                0 <= i < es@.len() ==> (r.lo <= i < r.hi <==> in_range(
                    es@[i].user_key@,
                    *lower,
                    *upper,
                )),
    {
        let mut lo: usize = 0;
        match lower {
            Some(l) => {
                while lo < es.len() && key_less(&es[lo].user_key, l)
                    invariant
                        lo <= es@.len(),
                        forall|i: int| 0 <= i < lo ==> key_lt(es@[i].user_key@, l@),
                    decreases es@.len() - lo,
                {
                    lo = lo + 1;
                }
            },
            None => {},
        }
        let mut hi: usize = lo;
        match upper {
            Some(u) => {
                while hi < es.len() && key_less(&es[hi].user_key, u)
                    invariant
                        lo <= hi <= es@.len(),
                        forall|i: int| lo <= i < hi ==> key_lt(es@[i].user_key@, u@),
                    decreases es@.len() - hi,
                {
                    hi = hi + 1;
                }
            },
            None => {
                hi = es.len();
            },
        }
        proof {
            assert forall|i: int| 0 <= i < es@.len() implies (lo <= i < hi <==> in_range(
                es@[i].user_key@,
                *lower,
                *upper,
            )) by {
                lemma_window(es@, lo as int, hi as int, i, *lower, *upper);
            }
        }
        Cursor { pos: lo, lo, hi }
    }

    /// Position at the first record of the window at or after `(key, ts)`.
    pub fn seek<V>(&mut self, es: &Vec<Entry<V>>, key: &Vec<u8>, ts: u64, stats: &mut CfStatistics)
        requires
            old(self).wf(es@.len()),
        ensures
            final(self).is_seek_of(*old(self), es@, key@, ts),
            final(stats).seek == bumped(old(stats).seek),
            final(stats).next == old(stats).next,
            final(stats).processed == old(stats).processed,
    {
        stats.seek = bump(stats.seek);
        self.internal_seek(es, key, ts, stats);
    }

    /// Position at the first record of the window.
    pub fn seek_to_first(&mut self, stats: &mut CfStatistics)
        requires
            old(self).lo <= old(self).hi,
        ensures
            *final(self) == (Cursor { pos: old(self).lo, ..*old(self) }),
            final(stats).seek == bumped(old(stats).seek),
            final(stats).next == old(stats).next,
            final(stats).processed == old(stats).processed,
    {
        stats.seek = bump(stats.seek);
        self.pos = self.lo;
    }

    /// `seek` for the scan's own bookkeeping: it does not count as a seek.
    pub fn internal_seek<V>(
        &mut self,
        es: &Vec<Entry<V>>,
        key: &Vec<u8>,
        ts: u64,
        stats: &mut CfStatistics,
    )
        requires
            old(self).wf(es@.len()),
        ensures
            final(self).is_seek_of(*old(self), es@, key@, ts),
            *final(stats) == *old(stats),
    {
        let mut p: usize = self.lo;
        while p < self.hi && entry_less(&es[p], key, ts)
            invariant
                self.wf(es@.len()),
                self.lo <= p <= self.hi,
                forall|j: int|
                    self.lo <= j < p ==> entry_lt(es@[j].user_key@, es@[j].ts, key@, ts),
            decreases self.hi - p,
        {
            p = p + 1;
        }
        self.pos = p;
    }

    /// Step to the next record.
    pub fn next(&mut self, stats: &mut CfStatistics)
        requires
            old(self).is_valid(),
        ensures
            *final(self) == (Cursor { pos: (old(self).pos + 1) as usize, ..*old(self) }),
            final(stats).next == bumped(old(stats).next),
            final(stats).seek == old(stats).seek,
            final(stats).processed == old(stats).processed,
    {
        stats.next = bump(stats.next);
        self.pos = self.pos + 1;
    }

    /// `seek` that first tries up to `SEEK_BOUND` steps forward from the
    /// current position, for lookups that move forward through the family.
    pub fn near_seek<V>(
        &mut self,
        es: &Vec<Entry<V>>,
        key: &Vec<u8>,
        ts: u64,
        stats: &mut CfStatistics,
    )
        requires
            old(self).wf(es@.len()),
            sorted(es@),
        ensures
            final(self).is_seek_of(*old(self), es@, key@, ts),
            cf_le(*old(stats), *final(stats)),
            final(stats).processed == old(stats).processed,
            final(stats).seek <= old(stats).seek + 1,
            final(stats).next <= old(stats).next + SEEK_BOUND,
    {
        let ghost s0 = *stats;
        if self.pos > self.lo && !entry_less(&es[self.pos - 1], key, ts) {
            self.seek(es, key, ts, stats);
            return;
        }
        proof {
            assert forall|j: int| self.lo <= j < self.pos implies entry_lt(
                es@[j].user_key@,
                es@[j].ts,
                key@,
                ts,
            ) by {
                let p = self.pos - 1;
                if j < p {
                    assert(entry_lt(es@[j].user_key@, es@[j].ts, es@[p].user_key@, es@[p].ts));
                    lemma_entry_lt_transitive(
                        es@[j].user_key@,
                        es@[j].ts,
                        es@[p].user_key@,
                        es@[p].ts,
                        key@,
                        ts,
                    );
                }
            }
        }
        let mut i: usize = 0;
        while i < SEEK_BOUND && self.pos < self.hi && entry_less(&es[self.pos], key, ts)
            invariant
                self.wf(es@.len()),
                self.lo == old(self).lo,
                self.hi == old(self).hi,
                forall|j: int|
                    self.lo <= j < self.pos ==> entry_lt(es@[j].user_key@, es@[j].ts, key@, ts),
                cf_le(s0, *stats),
                stats.processed == s0.processed,
                stats.seek == s0.seek,
                i <= SEEK_BOUND,
                stats.next <= s0.next + i,
                s0 == *old(stats),
            decreases SEEK_BOUND - i,
        {
            self.next(stats);
            i = i + 1;
        }
        if self.pos < self.hi && entry_less(&es[self.pos], key, ts) {
            self.seek(es, key, ts, stats);
        }
    }

    /// `self` is `old` moved to the first record of the window that is not
    /// below `(key, ts)`, or past the window when there is none.
    pub open spec fn is_seek_of<V>(self, old: Cursor, es: Seq<Entry<V>>, key: Seq<u8>, ts: u64) -> bool {
        &&& self.lo == old.lo
        &&& self.hi == old.hi
        &&& self.wf(es.len())
        &&& forall|j: int| self.lo <= j < self.pos ==> entry_lt(es[j].user_key@, es[j].ts, key, ts)
        &&& self.is_valid() ==> !entry_lt(es[self.pos as int].user_key@, es[self.pos as int].ts, key, ts)
    }
}

/// Storage order is transitive.
pub proof fn lemma_entry_lt_transitive(ak: Seq<u8>, ats: u64, bk: Seq<u8>, bts: u64, ck: Seq<u8>, cts: u64)
    requires
        entry_lt(ak, ats, bk, bts),
        entry_lt(bk, bts, ck, cts),
    ensures
        entry_lt(ak, ats, ck, cts),
{
    if key_lt(ak, bk) && key_lt(bk, ck) {
        crate::key::lemma_key_lt_transitive(ak, bk, ck);
    }
}

/// `a <= b < c` gives `a < c`.
pub proof fn lemma_key_le_lt(a: Seq<u8>, b: Seq<u8>, c: Seq<u8>)
    requires
        key_le(a, b),
        key_lt(b, c),
    ensures
        key_lt(a, c),
        a != c,
{
    if a != b {
        crate::key::lemma_key_lt_transitive(a, b, c);
    }
    crate::key::lemma_key_lt_asymmetric(a, c);
}

/// `key` lies in the half-open range `[lower, upper)`.
pub open spec fn in_range(key: Seq<u8>, lower: Option<Vec<u8>>, upper: Option<Vec<u8>>) -> bool {
    (match lower {
        Some(l) => !key_lt(key, l@),
        None => true,
    }) && (match upper {
        Some(u) => key_lt(key, u@),
        None => true,
    })
}

proof fn lemma_window<V>(
    es: Seq<Entry<V>>,
    lo: int,
    hi: int,
    i: int,
    lower: Option<Vec<u8>>,
    upper: Option<Vec<u8>>,
)
    requires
        sorted(es),
        0 <= lo <= hi <= es.len(),
        0 <= i < es.len(),
        lower is None ==> lo == 0,
        lower is Some ==> forall|j: int|
            0 <= j < lo ==> key_lt(#[trigger] es[j].user_key@, lower->Some_0@),
        lower is Some && lo < es.len() ==> !key_lt(es[lo].user_key@, lower->Some_0@),
        upper is None ==> hi == es.len(),
        upper is Some ==> forall|j: int|
            lo <= j < hi ==> key_lt(#[trigger] es[j].user_key@, upper->Some_0@),
        upper is Some && hi < es.len() ==> !key_lt(es[hi].user_key@, upper->Some_0@),
    ensures
        lo <= i < hi <==> in_range(es[i].user_key@, lower, upper),
{
    if i < lo {
    } else if i >= hi {
        if let Some(u) = upper {
            assert(!key_lt(es[i].user_key@, u@)) by {
                if i > hi {
                    assert(entry_lt(es[hi].user_key@, es[hi].ts, es[i].user_key@, es[i].ts));
                    if key_lt(es[i].user_key@, u@) && key_lt(es[hi].user_key@, es[i].user_key@) {
                        crate::key::lemma_key_lt_transitive(es[hi].user_key@, es[i].user_key@, u@);
                    }
                }
            }
        }
    } else {
        if let Some(l) = lower {
            assert(!key_lt(es[i].user_key@, l@)) by {
                if i > lo {
                    assert(entry_lt(es[lo].user_key@, es[lo].ts, es[i].user_key@, es[i].ts));
                    if key_lt(es[i].user_key@, l@) && key_lt(es[lo].user_key@, es[i].user_key@) {
                        crate::key::lemma_key_lt_transitive(es[lo].user_key@, es[i].user_key@, l@);
                    }
                }
            }
        }
    }
}

/// `(e.user_key, e.ts)` sorts strictly before `(key, ts)`.
pub fn entry_less<V>(e: &Entry<V>, key: &Vec<u8>, ts: u64) -> (r: bool)
    ensures
        r == entry_lt(e.user_key@, e.ts, key@, ts),
{
    if key_less(&e.user_key, key) {
        true
    } else {
        crate::key::key_equal(&e.user_key, key) && e.ts > ts
    }
}

} // verus!
