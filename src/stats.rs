//! Per-snapshot counters and mtime ranges.
use vstd::prelude::*;

use crate::interval::Interval;

verus! {

/// Relies on `SystemTime::now` and `duration_since(UNIX_EPOCH)`: whole seconds
/// since the epoch, or `None` for a clock set before it.
#[verifier::external_body]
fn seconds_since_epoch() -> (r: Option<u64>) {
    std::time::SystemTime::now().duration_since(std::time::UNIX_EPOCH).ok().map(|d| d.as_secs())
}

/// The clock now, or 0 where it reads before the epoch.
fn now_or_zero() -> u64 {
    match seconds_since_epoch() {
        Some(s) => s,
        None => 0,
    }
}

pub open spec fn min_with(o: Option<i64>, v: i64) -> Option<i64> {
    match o {
        Some(m) => Some(if v < m { v } else { m }),
        None => Some(v),
    }
}

pub open spec fn max_with(o: Option<i64>, v: i64) -> Option<i64> {
    match o {
        Some(m) => Some(if v > m { v } else { m }),
        None => Some(v),
    }
}

pub open spec fn sat_inc(n: i32) -> i32 {
    if n < i32::MAX { (n + 1) as i32 } else { n }
}

pub open spec fn sat_add(a: u64, b: u64) -> u64 {
    if a + b <= u64::MAX { (a + b) as u64 } else { u64::MAX }
}

fn saturating_inc(n: i32) -> (r: i32)
    ensures
        r == sat_inc(n),
{
    if n < i32::MAX { n + 1 } else { n }
}

fn saturating_add(a: u64, b: u64) -> (r: u64)
    ensures
        r == sat_add(a, b),
{
    if a <= u64::MAX - b { a + b } else { u64::MAX }
}

/// The counters after one more written file.
pub open spec fn after_write(s: BackupStats, size: u64, mtime: i64) -> BackupStats {
    BackupStats {
        num_writes: sat_inc(s.num_writes),
        bytes_written: sat_add(s.bytes_written, size),
        min_mtime: min_with(s.min_mtime, mtime),
        max_mtime: max_with(s.max_mtime, mtime),
        min_mtime_written: min_with(s.min_mtime_written, mtime),
        max_mtime_written: max_with(s.max_mtime_written, mtime),
        ..s
    }
}

/// The counters after one more linked file.
pub open spec fn after_link(s: BackupStats, mtime: i64) -> BackupStats {
    BackupStats {
        num_hardlinks: sat_inc(s.num_hardlinks),
        min_mtime: min_with(s.min_mtime, mtime),
        max_mtime: max_with(s.max_mtime, mtime),
        ..s
    }
}

/// The counters after one more deleted file.
pub open spec fn after_delete(s: BackupStats, size: u64) -> BackupStats {
    BackupStats {
        num_deletes: sat_inc(s.num_deletes),
        bytes_deleted: sat_add(s.bytes_deleted, size),
        ..s
    }
}

/// Aggregate counters of one snapshot. The counters stop at their largest value.
#[derive(Debug, Clone, Copy, PartialEq, Eq)]
pub struct BackupStats {
    pub num_writes: i32,
    pub num_hardlinks: i32,
    pub num_deletes: i32,
    pub bytes_written: u64,
    pub bytes_deleted: u64,
    pub min_mtime: Option<i64>,
    pub max_mtime: Option<i64>,
    pub min_mtime_written: Option<i64>,
    pub max_mtime_written: Option<i64>,
    pub backup_begin_mtime: u64,
    pub backup_end_mtime: Option<u64>,
}

impl BackupStats {
    /// Nothing counted yet; the snapshot began at `begin` (seconds since the epoch).
    pub open spec fn is_fresh(&self, begin: u64) -> bool {
        &&& self.num_writes == 0
        &&& self.num_hardlinks == 0
        &&& self.num_deletes == 0
        &&& self.bytes_written == 0
        &&& self.bytes_deleted == 0
        &&& self.min_mtime is None
        &&& self.max_mtime is None
        &&& self.min_mtime_written is None
        &&& self.max_mtime_written is None
        &&& self.backup_begin_mtime == begin
        &&& self.backup_end_mtime is None
    }

    /// Counters for a snapshot that begins at `begin`.
    pub fn started_at(begin: u64) -> (r: BackupStats)
        ensures
            r.is_fresh(begin),
    {
        BackupStats {
            num_writes: 0,
            num_hardlinks: 0,
            num_deletes: 0,
            bytes_written: 0,
            bytes_deleted: 0,
            min_mtime: None,
            max_mtime: None,
            min_mtime_written: None,
            max_mtime_written: None,
            backup_begin_mtime: begin,
            backup_end_mtime: None,
        }
    }

    /// Counters for a snapshot that begins now.
    pub fn new() -> (r: BackupStats)
        ensures
            r.is_fresh(r.backup_begin_mtime),
    {
        BackupStats::started_at(now_or_zero())
    }

    pub fn update_mtime(&mut self, mtime: i64)
        ensures
            *final(self) == (BackupStats {
                min_mtime: min_with(old(self).min_mtime, mtime),
                max_mtime: max_with(old(self).max_mtime, mtime),
                ..*old(self)
            }),
    {
        self.min_mtime = match self.min_mtime {
            Some(m) => Some(if mtime < m { mtime } else { m }),
            None => Some(mtime),
        };
        self.max_mtime = match self.max_mtime {
            Some(m) => Some(if mtime > m { mtime } else { m }),
            None => Some(mtime),
        };
    }

    pub fn update_mtime_written(&mut self, mtime: i64)
        ensures
            *final(self) == (BackupStats {
                min_mtime_written: min_with(old(self).min_mtime_written, mtime),
                max_mtime_written: max_with(old(self).max_mtime_written, mtime),
                ..*old(self)
            }),
    {
        self.min_mtime_written = match self.min_mtime_written {
            Some(m) => Some(if mtime < m { mtime } else { m }),
            None => Some(mtime),
        };
        self.max_mtime_written = match self.max_mtime_written {
            Some(m) => Some(if mtime > m { mtime } else { m }),
            None => Some(mtime),
        };
    }

    /// Counts a file written with fresh content.
    pub fn report_write(&mut self, size: u64, mtime: i64)
        ensures
            *final(self) == after_write(*old(self), size, mtime),
    {
        self.num_writes = saturating_inc(self.num_writes);
        self.bytes_written = saturating_add(self.bytes_written, size);
        self.update_mtime(mtime);
        self.update_mtime_written(mtime);
    }

    /// Counts a file linked to the previous snapshot.
    pub fn report_link(&mut self, mtime: i64)
        ensures
            *final(self) == after_link(*old(self), mtime),
    {
        self.num_hardlinks = saturating_inc(self.num_hardlinks);
        self.update_mtime(mtime);
    }

    /// Counts a file that is gone since the previous snapshot.
    pub fn report_delete(&mut self, size: u64)
        ensures
            *final(self) == after_delete(*old(self), size),
    {
        self.num_deletes = saturating_inc(self.num_deletes);
        self.bytes_deleted = saturating_add(self.bytes_deleted, size);
    }

    /// Stamps the end of the snapshot at `end` (seconds since the epoch).
    pub fn report_done_at(&mut self, end: u64)
        ensures
            *final(self) == (BackupStats { backup_end_mtime: Some(end), ..*old(self) }),
    {
        self.backup_end_mtime = Some(end);
    }

    /// Stamps the end of the snapshot now.
    pub fn report_done(&mut self)
        ensures
            final(self).backup_end_mtime is Some,
            *final(self) == (BackupStats {
                backup_end_mtime: final(self).backup_end_mtime,
                ..*old(self)
            }),
    {
        let end = now_or_zero();
        self.report_done_at(end);
    }

    /// The range of all recorded mtimes; empty (`lo = 1, hi = 0`) when none is.
    pub fn mtimes(&self) -> (r: Interval)
        ensures
            r.lo == self.min_mtime.unwrap_or(1),
            r.hi == self.max_mtime.unwrap_or(0),
    {
        Interval {
            lo: match self.min_mtime {
                Some(v) => v,
                None => 1,
            },
            hi: match self.max_mtime {
                Some(v) => v,
                None => 0,
            },
        }
    }

    /// The range of the mtimes of written files; empty when none was written.
    pub fn mtimes_written(&self) -> (r: Interval)
        ensures
            r.lo == self.min_mtime_written.unwrap_or(1),
            r.hi == self.max_mtime_written.unwrap_or(0),
    {
        Interval {
            lo: match self.min_mtime_written {
                Some(v) => v,
                None => 1,
            },
            hi: match self.max_mtime_written {
                Some(v) => v,
                None => 0,
            },
        }
    }
}

} // verus!
