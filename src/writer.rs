//! Putting down a new snapshot's log.
use vstd::prelude::*;

use crate::codec::{push_dec, push_hex, push_signed, DELIMITER, NEWLINE};
use crate::log::{
    append_slice, bytes_lt, decode_log, encode_fields, encode_log, encode_record, lemma_bytes_lt_asym,
    lemma_encode_push, lemma_log_round_trip, record_path, record_wf, BackupLogPath, FileRecord,
    PathOrder, Record, OP_DELETE, OP_LINK, OP_WRITE,
};
use crate::stats::{after_delete, after_link, after_write, BackupStats};

verus! {

/// Each record's path sorts strictly before the next one's.
pub open spec fn paths_ascending(rs: Seq<Record>) -> bool {
    forall|k: int| 0 <= k < rs.len() - 1 ==> bytes_lt(record_path(#[trigger] rs[k]), record_path(rs[k + 1]))
}

/// A record for `p` may follow `rs`: `p` sorts after the last path so far.
pub open spec fn accepts_path(rs: Seq<Record>, p: Seq<u8>) -> bool {
    rs.len() == 0 || bytes_lt(record_path(rs.last()), p)
}

/// Puts down the log of a new snapshot and counts what it records; `accepts` tells
/// whether a path keeps the records in path order.
pub struct BackupLogWriter {
    writer: Vec<u8>,
    stats: BackupStats,
    last_path: Option<BackupLogPath>,
    records: Ghost<Seq<Record>>,
}

impl View for BackupLogWriter {
    /// The records put down so far.
    type V = Seq<Record>;

    closed spec fn view(&self) -> Seq<Record> {
        self.records@
    }
}

impl BackupLogWriter {
    /// The text is the encoding of the records.
    pub closed spec fn wf(&self) -> bool {
        &&& self.writer@ == encode_log(self.records@)
        &&& forall|k: int| 0 <= k < self.records@.len() ==> record_wf(#[trigger] self.records@[k])
        &&& match self.last_path {
            None => self.records@.len() == 0,
            Some(p) => self.records@.len() > 0 && p@ == record_path(self.records@.last()),
        }
    }

    /// The log text put down so far.
    pub closed spec fn text(&self) -> Seq<u8> {
        self.writer@
    }

    /// The counters so far.
    pub closed spec fn counters(&self) -> BackupStats {
        self.stats
    }

    /// A writer with no record, whose counters begin now.
    pub fn new() -> (r: BackupLogWriter)
        ensures
            r.wf(),
            r@ == Seq::<Record>::empty(),
            r.counters().is_fresh(r.counters().backup_begin_mtime),
    {
        BackupLogWriter::with_stats(BackupStats::new())
    }

    /// A writer with no record that goes on counting from `stats`.
    pub fn with_stats(stats: BackupStats) -> (r: BackupLogWriter)
        ensures
            r.wf(),
            r@ == Seq::<Record>::empty(),
            r.counters() == stats,
    {
        BackupLogWriter {
            writer: Vec::new(),
            stats,
            last_path: None,
            records: Ghost(Seq::empty()),
        }
    }

    /// Whether a record for `path` may come next.
    pub fn accepts(&self, path: &BackupLogPath) -> (r: bool)
        requires
            self.wf(),
        ensures
            r == accepts_path(self@, path@),
    {
        match &self.last_path {
            None => true,
            Some(last) => {
                let o = last.compare(path);
                proof {
                    lemma_bytes_lt_asym(last@, path@);
                }
                o == PathOrder::Less
            },
        }
    }

    fn writeline(&mut self, op: u8, path: &BackupLogPath, hash: u64, mtime: i64, size: u64)
        ensures
            final(self).writer@ == old(self).writer@ + encode_fields(op, hash, mtime, size, path@),
            final(self).stats == old(self).stats,
            final(self).last_path == old(self).last_path,
            final(self).records == old(self).records,
    {
        let ghost start = self.writer@;
        self.writer.push(op);
        self.writer.push(DELIMITER);
        push_hex(&mut self.writer, hash);
        self.writer.push(DELIMITER);
        push_signed(&mut self.writer, mtime);
        self.writer.push(DELIMITER);
        push_dec(&mut self.writer, size);
        self.writer.push(DELIMITER);
        push_dec(&mut self.writer, path.bytes_len() as u64);
        self.writer.push(DELIMITER);
        append_slice(&mut self.writer, path.as_bytes());
        self.writer.push(NEWLINE);
        assert(self.writer@ =~= start + encode_fields(op, hash, mtime, size, path@));
    }

    proof fn lemma_append(&self, r: Record, new_records: Seq<Record>)
        requires
            self.wf(),
            record_wf(r),
            new_records == self@.push(r),
        ensures
            forall|k: int| 0 <= k < new_records.len() ==> record_wf(#[trigger] new_records[k]),
            encode_log(new_records) == self.writer@ + encode_record(r),
    {
        lemma_encode_push(self@, r);
        assert forall|k: int| 0 <= k < new_records.len() implies record_wf(#[trigger] new_records[k]) by {
            if k < self@.len() {
                assert(new_records[k] == self@[k]);
            }
        }
    }

    /// Records a file written with fresh content.
    pub fn report_write(&mut self, path: &BackupLogPath, hash: u64, mtime: i64, size: u64)
        requires
            old(self).wf(),
        ensures
            final(self).wf(),
            final(self)@ == old(self)@.push(
                Record::Write(FileRecord { path: path@, xxh3: hash, mtime, size }),
            ),
            final(self).counters() == after_write(old(self).counters(), size, mtime),
    {
        let ghost r = Record::Write(FileRecord { path: path@, xxh3: hash, mtime, size });
        let n = path.bytes_len();
        proof {
            assert(n <= u64::MAX);
            self.lemma_append(r, self@.push(r));
        }
        self.stats.report_write(size, mtime);
        self.writeline(OP_WRITE, path, hash, mtime, size);
        self.last_path = Some(path.duplicate());
        self.records = Ghost(self.records@.push(r));
    }

    /// Records a file hard-linked to the previous snapshot.
    pub fn report_hardlink(&mut self, path: &BackupLogPath, hash: u64, mtime: i64, size: u64)
        requires
            old(self).wf(),
        ensures
            final(self).wf(),
            final(self)@ == old(self)@.push(
                Record::Link(FileRecord { path: path@, xxh3: hash, mtime, size }),
            ),
            final(self).counters() == after_link(old(self).counters(), mtime),
    {
        let ghost r = Record::Link(FileRecord { path: path@, xxh3: hash, mtime, size });
        let n = path.bytes_len();
        proof {
            assert(n <= u64::MAX);
            self.lemma_append(r, self@.push(r));
        }
        self.stats.report_link(mtime);
        self.writeline(OP_LINK, path, hash, mtime, size);
        self.last_path = Some(path.duplicate());
        self.records = Ghost(self.records@.push(r));
    }

    /// Records a file gone since the previous snapshot. The counters take its
    /// size; the record carries size 0.
    pub fn report_delete(&mut self, path: &BackupLogPath, size: u64)
        requires
            old(self).wf(),
        ensures
            final(self).wf(),
            final(self)@ == old(self)@.push(Record::Delete { path: path@, size: 0 }),
            final(self).counters() == after_delete(old(self).counters(), size),
    {
        let ghost r = Record::Delete { path: path@, size: 0 };
        let n = path.bytes_len();
        proof {
            assert(n <= u64::MAX);
            self.lemma_append(r, self@.push(r));
        }
        self.stats.report_delete(size);
        self.writeline(OP_DELETE, path, 0, 0, 0);
        self.last_path = Some(path.duplicate());
        self.records = Ghost(self.records@.push(r));
    }

    /// Stamps the end of the snapshot now and hands back the log text and the counters.
    pub fn finalize(self) -> (r: (Vec<u8>, BackupStats))
        requires
            self.wf(),
        ensures
            r.0@ == encode_log(self@),
            r.1.backup_end_mtime is Some,
            r.1 == (BackupStats { backup_end_mtime: r.1.backup_end_mtime, ..self.counters() }),
    {
        let mut stats = self.stats;
        stats.report_done();
        (self.writer, stats)
    }
}

/// Reading the log that a writer put down yields exactly the records it was
/// given, in order, whatever their path bytes (a deletion reads back with
/// size 0, which is what the writer puts down).
pub proof fn lemma_written_log_reads_back(w: &BackupLogWriter)
    requires
        w.wf(),
    ensures
        w.text() == encode_log(w@),
        decode_log(w.text()) == Ok::<Seq<Record>, crate::codec::ReadError>(w@),
{
    lemma_log_round_trip(w@);
}

/// A record whose path sorts after the last one keeps the paths ascending.
pub proof fn lemma_ascending_push(rs: Seq<Record>, r: Record)
    requires
        paths_ascending(rs),
        accepts_path(rs, record_path(r)),
    ensures
        paths_ascending(rs.push(r)),
{
    let n = rs.push(r);
    assert forall|k: int| 0 <= k < n.len() - 1 implies bytes_lt(record_path(#[trigger] n[k]), record_path(n[k + 1])) by {
        if k < rs.len() - 1 {
            assert(n[k] == rs[k] && n[k + 1] == rs[k + 1]);
        }
    }
}

} // verus!
