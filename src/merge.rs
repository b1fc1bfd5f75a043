//! The one-pass merge of a source walk against the previous snapshot's log.
use vstd::prelude::*;

use crate::codec::ReadError;
use crate::log::{
    bytes_lt, collect_files, file_views, files_from, lemma_bytes_lt_asym, lemma_bytes_lt_trans, BackupFileStats, BackupLog,
    BackupLogPath, FileRecord, PathOrder, Record,
};
use crate::stats::{after_delete, BackupStats};
use crate::writer::{accepts_path, lemma_ascending_push, paths_ascending, BackupLogWriter};

verus! {

/// Each file's path sorts strictly before the next one's.
pub open spec fn files_ascending(fs: Seq<FileRecord>) -> bool {
    forall|k: int| 0 <= k < fs.len() - 1 ==> bytes_lt((#[trigger] fs[k]).path, fs[k + 1].path)
}

/// The deletion records for files that are gone.
pub open spec fn deletions(fs: Seq<FileRecord>) -> Seq<Record> {
    fs.map_values(|f: FileRecord| Record::Delete { path: f.path, size: 0 })
}

/// The counters after a deletion of each file, in order.
pub open spec fn after_deletes(s: BackupStats, fs: Seq<FileRecord>) -> BackupStats
    decreases fs.len(),
{
    if fs.len() == 0 {
        s
    } else {
        after_delete(after_deletes(s, fs.drop_last()), fs.last().size)
    }
}

/// The files of the previous snapshot, taken one after another in log order.
pub struct PriorFiles {
    files: Vec<BackupFileStats>,
    next: usize,
}

impl View for PriorFiles {
    /// The files, and the index of the next one.
    type V = (Seq<FileRecord>, nat);

    closed spec fn view(&self) -> (Seq<FileRecord>, nat) {
        (file_views(self.files@), self.next as nat)
    }
}

impl PriorFiles {
    /// The files ascend strictly by path and the next index is within them.
    pub open spec fn wf(&self) -> bool {
        &&& files_ascending(self@.0)
        &&& self@.1 <= self@.0.len()
    }

    /// No previous snapshot.
    pub fn none() -> (r: PriorFiles)
        ensures
            r.wf(),
            r@ == (Seq::<FileRecord>::empty(), 0nat),
    {
        let r = PriorFiles { files: Vec::new(), next: 0 };
        assert(r@.0 =~= Seq::<FileRecord>::empty());
        r
    }

    /// The files that the previous snapshot's log lists. A log that cannot
    /// be read fails with its error; one whose paths do not ascend strictly
    /// is `InvalidData`.
    pub fn load(log: &BackupLog) -> (r: Result<PriorFiles, ReadError>)
        ensures
            match files_from(log@, 0) {
                Ok(fs) => if files_ascending(fs) {
                    r matches Ok(p) && p.wf() && p@ == (fs, 0nat)
                } else {
                    r == Err::<PriorFiles, ReadError>(ReadError::InvalidData)
                },
                Err(e) => r == Err::<PriorFiles, ReadError>(e),
            },
    {
        let files = collect_files(log)?;
        let ghost fs = file_views(files@);
        let mut k: usize = 0;
        while files.len() > 0 && k < files.len() - 1
            invariant
                fs == file_views(files@),
                files_from(log@, 0) == Ok::<Seq<FileRecord>, ReadError>(fs),
                k <= files.len(),
                forall|j: int| 0 <= j < k && j < fs.len() - 1 ==> bytes_lt(
                    (#[trigger] fs[j]).path,
                    fs[j + 1].path,
                ),
            decreases files.len() - k,
        {
            if files[k].path.compare(&files[k + 1].path) != PathOrder::Less {
                proof {
                    assert(fs[k as int] == files@[k as int]@);
                    assert(fs[k + 1] == files@[k + 1]@);
                    lemma_bytes_lt_asym(fs[k as int].path, fs[k + 1].path);
                }
                assert(!files_ascending(fs));
                return Err(ReadError::InvalidData);
            }
            proof {
                assert(fs[k as int] == files@[k as int]@);
                assert(fs[k + 1] == files@[k + 1]@);
            }
            k = k + 1;
        }
        Ok(PriorFiles { files, next: 0 })
    }

    /// The next file, if any is left.
    pub fn peek(&self) -> (r: Option<&BackupFileStats>)
        ensures
            self@.1 < self@.0.len() ==> (r matches Some(f) && f@ == self@.0[self@.1 as int]),
            self@.1 >= self@.0.len() ==> r is None,
    {
        if self.next < self.files.len() {
            Some(&self.files[self.next])
        } else {
            None
        }
    }

    /// Moves past the next file.
    fn advance(&mut self)
        requires
            old(self)@.1 < old(self)@.0.len(),
        ensures
            final(self)@ == (old(self)@.0, old(self)@.1 + 1),
    {
        if self.next < self.files.len() {
            self.next = self.next + 1;
        }
    }
}

/// What the walk does with a source file.
#[derive(Debug, Clone, Copy, PartialEq, Eq, Structural)]
pub enum FileAction {
    /// Hard-link the previous snapshot's copy; the link is already recorded
    /// with the previous record's hash, mtime and size.
    Link { xxh3: u64, mtime: i64, size: u64 },
    /// Copy the file afresh and record it with `record_write`.
    Copy,
}

/// A request that would put the log out of path order.
#[derive(Debug, Clone, Copy, PartialEq, Eq, Structural)]
pub enum MergeError {
    OutOfOrder,
}

/// Every file left in `prev` sorts after the last path recorded.
pub open spec fn ready(w: Seq<Record>, prev: (Seq<FileRecord>, nat)) -> bool {
    prev.1 < prev.0.len() ==> accepts_path(w, prev.0[prev.1 as int].path)
}

/// Records a deletion for each previous file that sorts before `path`, and
/// tells whether the next previous file is `path` itself.
#[verifier::rlimit(60)]
fn report_deletes_until_file(path: &BackupLogPath, prev: &mut PriorFiles, w: &mut BackupLogWriter) -> (matched: bool)
    requires
        old(prev).wf(),
        old(w).wf(),
        paths_ascending(old(w)@),
        accepts_path(old(w)@, path@),
        ready(old(w)@, old(prev)@),
    ensures
        final(prev).wf(),
        final(w).wf(),
        paths_ascending(final(w)@),
        final(prev)@.0 == old(prev)@.0,
        old(prev)@.1 <= final(prev)@.1 <= old(prev)@.0.len(),
        !matched && final(prev)@.1 < old(prev)@.0.len() ==> bytes_lt(path@, old(prev)@.0[final(prev)@.1 as int].path),
        forall|j: int|
            old(prev)@.1 <= j < final(prev)@.1 ==> bytes_lt(#[trigger] old(prev)@.0[j].path, path@),
        final(prev)@.1 < old(prev)@.0.len() ==> !bytes_lt(old(prev)@.0[final(prev)@.1 as int].path, path@),
        matched == (final(prev)@.1 < old(prev)@.0.len() && old(prev)@.0[final(prev)@.1 as int].path == path@),
        final(w)@ == old(w)@ + deletions(old(prev)@.0.subrange(old(prev)@.1 as int, final(prev)@.1 as int)),
        final(w).counters() == after_deletes(
            old(w).counters(),
            old(prev)@.0.subrange(old(prev)@.1 as int, final(prev)@.1 as int),
        ),
        accepts_path(final(w)@, path@),
        ready(final(w)@, final(prev)@),
{
    let ghost fs = prev@.0;
    let ghost from = prev@.1;
    loop
        invariant
            prev.wf(),
            w.wf(),
            prev@.0 == fs,
            fs == old(prev)@.0,
            from == old(prev)@.1,
            from <= prev@.1 <= fs.len(),
            forall|j: int| from <= j < prev@.1 ==> bytes_lt(#[trigger] fs[j].path, path@),
            paths_ascending(w@),
            w@ == old(w)@ + deletions(fs.subrange(from as int, prev@.1 as int)),
            w.counters() == after_deletes(old(w).counters(), fs.subrange(from as int, prev@.1 as int)),
            accepts_path(w@, path@),
            ready(w@, prev@),
        decreases fs.len() - prev@.1,
    {
        let ghost i: int = prev@.1 as int;
        let ghost wv = w@;
        match prev.peek() {
            None => return false,
            Some(f) => {
                let o = f.path.compare(path);
                proof {
                    lemma_bytes_lt_asym(f.path@, path@);
                }
                if o == PathOrder::Equal {
                    return true;
                } else if o == PathOrder::Greater {
                    return false;
                }
                proof {
                    lemma_ascending_push(w@, Record::Delete { path: f.path@, size: 0 });
                }
                w.report_delete(&f.path, f.size);
            },
        }
        prev.advance();
        proof {
            let sub = fs.subrange(from as int, i + 1);
            assert(sub.drop_last() =~= fs.subrange(from as int, i as int));
            assert(deletions(sub) =~= deletions(fs.subrange(from as int, i as int)).push(
                Record::Delete { path: fs[i as int].path, size: 0 },
            ));
            assert(w@ =~= old(w)@ + deletions(sub));
            if i + 1 < fs.len() {
                assert(bytes_lt(fs[i as int].path, fs[i + 1].path));
            }
        }
    }
}

/// Records a deletion for every previous file that is left.
fn report_remaining_deletes(prev: &mut PriorFiles, w: &mut BackupLogWriter)
    requires
        old(prev).wf(),
        old(w).wf(),
        paths_ascending(old(w)@),
        ready(old(w)@, old(prev)@),
    ensures
        final(w).wf(),
        paths_ascending(final(w)@),
        final(w)@ == old(w)@ + deletions(old(prev)@.0.subrange(old(prev)@.1 as int, old(prev)@.0.len() as int)),
        final(w).counters() == after_deletes(
            old(w).counters(),
            old(prev)@.0.subrange(old(prev)@.1 as int, old(prev)@.0.len() as int),
        ),
{
    let ghost fs = prev@.0;
    let ghost from = prev@.1;
    loop
        invariant
            prev.wf(),
            w.wf(),
            prev@.0 == fs,
            fs == old(prev)@.0,
            from == old(prev)@.1,
            from <= prev@.1 <= fs.len(),
            paths_ascending(w@),
            w@ == old(w)@ + deletions(fs.subrange(from as int, prev@.1 as int)),
            w.counters() == after_deletes(old(w).counters(), fs.subrange(from as int, prev@.1 as int)),
            ready(w@, prev@),
        decreases fs.len() - prev@.1,
    {
        let ghost i: int = prev@.1 as int;
        match prev.peek() {
            None => return,
            Some(f) => {
                proof {
                    lemma_ascending_push(w@, Record::Delete { path: f.path@, size: 0 });
                }
                w.report_delete(&f.path, f.size);
            },
        }
        prev.advance();
        proof {
            let sub = fs.subrange(from as int, i + 1);
            assert(sub.drop_last() =~= fs.subrange(from as int, i as int));
            assert(deletions(sub) =~= deletions(fs.subrange(from as int, i as int)).push(
                Record::Delete { path: fs[i as int].path, size: 0 },
            ));
            assert(w@ =~= old(w)@ + deletions(sub));
            if i + 1 < fs.len() {
                assert(bytes_lt(fs[i as int].path, fs[i + 1].path));
            }
        }
    }
}

/// The log of a new snapshot, merged in one pass against the previous one.
pub struct IncrementalBackup {
    prev: PriorFiles,
    writer: BackupLogWriter,
}

impl IncrementalBackup {
    /// The previous files ascend strictly and the next one is within them;
    /// the recorded paths ascend strictly, and every previous file left sorts
    /// after the last of them.
    pub open spec fn wf(&self) -> bool {
        &&& self.writer_wf()
        &&& files_ascending(self.prior().0)
        &&& self.prior().1 <= self.prior().0.len()
        &&& paths_ascending(self.records())
        &&& ready(self.records(), self.prior())
    }

    pub closed spec fn writer_wf(&self) -> bool {
        self.writer.wf()
    }

    /// The previous snapshot's files and the index of the next one.
    pub closed spec fn prior(&self) -> (Seq<FileRecord>, nat) {
        self.prev@
    }

    /// The records put down so far.
    pub closed spec fn records(&self) -> Seq<Record> {
        self.writer@
    }

    /// The counters so far.
    pub closed spec fn counters(&self) -> BackupStats {
        self.writer.counters()
    }

    /// Starts a new snapshot's log against the previous snapshot's files.
    pub fn new(prev: PriorFiles) -> (r: IncrementalBackup)
        requires
            prev.wf(),
        ensures
            r.wf(),
            r.prior() == prev@,
            r.records() == Seq::<Record>::empty(),
            r.counters().is_fresh(r.counters().backup_begin_mtime),
    {
        IncrementalBackup { prev, writer: BackupLogWriter::new() }
    }

    /// Like `new`, going on counting from `stats`.
    pub fn with_stats(prev: PriorFiles, stats: BackupStats) -> (r: IncrementalBackup)
        requires
            prev.wf(),
        ensures
            r.wf(),
            r.prior() == prev@,
            r.records() == Seq::<Record>::empty(),
            r.counters() == stats,
    {
        IncrementalBackup { prev, writer: BackupLogWriter::with_stats(stats) }
    }

    /// Decides what to do with the source file at `path`, whose stat shows
    /// `mtime` and `size`. Previous files that sort before `path` are recorded
    /// as deleted. Where the next previous file is `path` with the same mtime
    /// and size, a link is recorded and returned; otherwise the file is to be
    /// copied. A path that does not sort after the last one recorded is refused.
    pub fn visit_file(&mut self, path: &BackupLogPath, mtime: i64, size: u64) -> (r: Result<FileAction, MergeError>)
        requires
            old(self).wf(),
        ensures
            final(self).wf(),
            final(self).prior().0 == old(self).prior().0,
            !accepts_path(old(self).records(), path@) ==> r == Err::<FileAction, MergeError>(MergeError::OutOfOrder)
                && *final(self) == *old(self),
            accepts_path(old(self).records(), path@) ==> {
                let fs = old(self).prior().0;
                let from = old(self).prior().1;
                let k = final(self).prior().1;
                let matched = k > from && fs[k - 1].path == path@;
                let gone = if matched { k - 1 } else { k as int };
                let dels = old(self).records() + deletions(fs.subrange(from as int, gone));
                &&& from <= gone <= k <= fs.len()
                &&& forall|j: int| from <= j < gone ==> bytes_lt(#[trigger] fs[j].path, path@)
                &&& gone < fs.len() ==> !bytes_lt(fs[gone].path, path@)
                &&& (k == gone + 1) == (gone < fs.len() && fs[gone].path == path@)
                &&& if matched && fs[gone].mtime == mtime && fs[gone].size == size {
                    &&& r == Ok::<FileAction, MergeError>(
                        FileAction::Link { xxh3: fs[gone].xxh3, mtime: fs[gone].mtime, size: fs[gone].size },
                    )
                    &&& final(self).records() == dels.push(Record::Link(fs[gone]))
                } else {
                    &&& r == Ok::<FileAction, MergeError>(FileAction::Copy)
                    &&& final(self).records() == dels
                }
            },
            r == Ok::<FileAction, MergeError>(FileAction::Copy) ==> accepts_path(final(self).records(), path@)
                && (final(self).prior().1 < final(self).prior().0.len() ==> bytes_lt(
                path@,
                final(self).prior().0[final(self).prior().1 as int].path,
            )),
    {
        if !self.writer.accepts(path) {
            return Err(MergeError::OutOfOrder);
        }
        let ghost fs = self.prev@.0;
        let matched = report_deletes_until_file(path, &mut self.prev, &mut self.writer);
        if matched {
            let ghost k: int = self.prev@.1 as int;
            let f = self.prev.peek().unwrap();
            let unchanged = f.mtime == mtime && f.size == size;
            let (h, m, z) = (f.xxh3, f.mtime, f.size);
            if unchanged {
                proof {
                    lemma_ascending_push(self.writer@, Record::Link(FileRecord { path: path@, xxh3: h, mtime: m, size: z }));
                }
                self.writer.report_hardlink(path, h, m, z);
                assert(fs[k as int].path == path@);
            }
            self.prev.advance();
            proof {
                if k + 1 < fs.len() {
                    assert(bytes_lt(fs[k as int].path, fs[k + 1].path));
                    if !unchanged && self.writer@.len() > 0 {
                        lemma_bytes_lt_trans(
                            crate::log::record_path(self.writer@.last()),
                            path@,
                            fs[k + 1].path,
                        );
                    }
                }
                lemma_bytes_lt_asym(path@, path@);
            }
            if unchanged {
                Ok(FileAction::Link { xxh3: h, mtime: m, size: z })
            } else {
                Ok(FileAction::Copy)
            }
        } else {
            Ok(FileAction::Copy)
        }
    }

    /// Records a file copied afresh at `path`, after `visit_file` said to copy
    /// it. A path out of order with the records or with the previous files
    /// still to come is refused.
    pub fn record_write(&mut self, path: &BackupLogPath, xxh3: u64, mtime: i64, size: u64) -> (r: Result<(), MergeError>)
        requires
            old(self).wf(),
        ensures
            final(self).wf(),
            final(self).prior() == old(self).prior(),
            ({
                let p = old(self).prior();
                let fits = accepts_path(old(self).records(), path@) && (p.1 < p.0.len() ==> bytes_lt(path@, p.0[p.1 as int].path));
                if fits {
                    &&& r is Ok
                    &&& final(self).records() == old(self).records().push(
                        Record::Write(FileRecord { path: path@, xxh3, mtime, size }),
                    )
                } else {
                    r == Err::<(), MergeError>(MergeError::OutOfOrder) && *final(self) == *old(self)
                }
            }),
    {
        if !self.writer.accepts(path) {
            return Err(MergeError::OutOfOrder);
        }
        match self.prev.peek() {
            Some(f) => {
                if path.compare(&f.path) != PathOrder::Less {
                    proof {
                        lemma_bytes_lt_asym(path@, f.path@);
                    }
                    return Err(MergeError::OutOfOrder);
                }
            },
            None => {},
        }
        proof {
            lemma_ascending_push(self.writer@, Record::Write(FileRecord { path: path@, xxh3, mtime, size }));
        }
        self.writer.report_write(path, xxh3, mtime, size);
        Ok(())
    }

    /// Records every previous file left as deleted, stamps the end now, and
    /// hands back the log text and the counters.
    pub fn finish(self) -> (r: (Vec<u8>, BackupStats))
        requires
            self.wf(),
        ensures
            ({
                let p = self.prior();
                let rest = p.0.subrange(p.1 as int, p.0.len() as int);
                &&& r.0@ == crate::log::encode_log(self.records() + deletions(rest))
                &&& crate::log::decode_log(r.0@) == Ok::<Seq<Record>, ReadError>(self.records() + deletions(rest))
                &&& crate::writer::paths_ascending(self.records() + deletions(rest))
                &&& r.1 == (BackupStats {
                    backup_end_mtime: r.1.backup_end_mtime,
                    ..after_deletes(self.counters(), rest)
                })
                &&& r.1.backup_end_mtime is Some
            }),
    {
        let mut prev = self.prev;
        let mut writer = self.writer;
        report_remaining_deletes(&mut prev, &mut writer);
        proof {
            crate::writer::lemma_written_log_reads_back(&writer);
        }
        writer.finalize()
    }
}

} // verus!
