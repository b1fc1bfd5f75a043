use biu::codec::ReadError;
use biu::interval::Interval;
use biu::log::{BackupLog, BackupLogIterator, BackupLogPath, LogEntry, BackupFileStats, DeleteData};
use biu::merge::{FileAction, IncrementalBackup, MergeError, PriorFiles};
use biu::parser::HybridFileParser;
use biu::repo::{order_snapshots, snapshot_dir_name, SnapshotEntry};
use biu::retention::{determine_backups_to_keep, Period, RetentionPlan};
use biu::sources::{get_top_level_backup_dir, order_children, sort_sources, SourceError};
use biu::stats::BackupStats;
use biu::writer::BackupLogWriter;

fn path(s: &str) -> BackupLogPath {
    BackupLogPath::new(s.as_bytes().to_vec())
}

fn prior(files: &[(&str, i64, u64)]) -> PriorFiles {
    let mut w = BackupLogWriter::new();
    for (p, mtime, size) in files {
        w.report_write(&path(p), 7, *mtime, *size);
    }
    let (bytes, _) = w.finalize();
    PriorFiles::load(&BackupLog::create(bytes)).unwrap()
}

#[test]
fn merge_links_unchanged_copies_changed_and_records_deletions() {
    let mut m = IncrementalBackup::with_stats(prior(&[("a", 1, 1), ("b", 2, 2), ("c", 3, 3), ("e", 5, 5)]), BackupStats::started_at(9));
    assert_eq!(m.visit_file(&path("b"), 2, 2), Ok(FileAction::Link { xxh3: 7, mtime: 2, size: 2 }));
    assert_eq!(m.visit_file(&path("c"), 4, 3), Ok(FileAction::Copy));
    assert_eq!(m.record_write(&path("c"), 8, 4, 3), Ok(()));
    assert_eq!(m.visit_file(&path("d"), 1, 1), Ok(FileAction::Copy));
    assert_eq!(m.record_write(&path("d"), 9, 1, 1), Ok(()));
    let (bytes, stats) = m.finish();
    let mut it = BackupLogIterator::new(bytes);
    let mut entries = vec![];
    while let Some(e) = it.next() {
        entries.push(e.unwrap());
    }
    assert_eq!(
        entries,
        vec![
            LogEntry::Delete(DeleteData { path: path("a"), size: 0 }),
            LogEntry::Link(BackupFileStats { path: path("b"), xxh3: 7, mtime: 2, size: 2 }),
            LogEntry::Write(BackupFileStats { path: path("c"), xxh3: 8, mtime: 4, size: 3 }),
            LogEntry::Write(BackupFileStats { path: path("d"), xxh3: 9, mtime: 1, size: 1 }),
            LogEntry::Delete(DeleteData { path: path("e"), size: 0 }),
        ]
    );
    assert_eq!(stats.num_deletes, 2);
    assert_eq!(stats.bytes_deleted, 6);
    assert_eq!(stats.num_hardlinks, 1);
    assert_eq!(stats.num_writes, 2);
    assert_eq!(stats.bytes_written, 4);
    assert_eq!(stats.backup_begin_mtime, 9);
    assert_eq!(stats.mtimes(), Interval { lo: 1, hi: 4 });
    assert_eq!(stats.mtimes_written(), Interval { lo: 1, hi: 4 });
}

#[test]
fn merge_refuses_out_of_order_paths() {
    let mut m = IncrementalBackup::new(prior(&[("m", 1, 1)]));
    assert_eq!(m.visit_file(&path("b"), 1, 1), Ok(FileAction::Copy));
    assert_eq!(m.record_write(&path("n"), 1, 1, 1), Err(MergeError::OutOfOrder));
    assert_eq!(m.record_write(&path("b"), 1, 1, 1), Ok(()));
    assert_eq!(m.visit_file(&path("a"), 1, 1), Err(MergeError::OutOfOrder));
    assert_eq!(m.visit_file(&path("b"), 1, 1), Err(MergeError::OutOfOrder));
}

#[test]
fn unsorted_prior_log_is_corrupt() {
    let log = BackupLog::create(b"w;1;0;1;1;b\nw;1;0;1;1;a\n".to_vec());
    assert!(matches!(PriorFiles::load(&log), Err(ReadError::InvalidData)));
    let log = BackupLog::create(b"w;1;0;1;1;b\nw;1;0".to_vec());
    assert!(matches!(PriorFiles::load(&log), Err(ReadError::UnexpectedEof)));
}

#[test]
fn without_prior_snapshot_everything_is_copied() {
    let mut m = IncrementalBackup::new(PriorFiles::none());
    assert_eq!(m.visit_file(&path("x"), 1, 1), Ok(FileAction::Copy));
}

#[test]
fn top_level_names() {
    assert_eq!(get_top_level_backup_dir(b"/").unwrap(), path("root"));
    assert_eq!(get_top_level_backup_dir(b"/home/user/docs").unwrap(), path("docs"));
    assert_eq!(get_top_level_backup_dir(b"/home/"), Err(SourceError::NoName));
    assert_eq!(get_top_level_backup_dir(b""), Err(SourceError::NoName));
}

#[test]
fn sources_sorted_and_unique() {
    let srcs = vec![b"/x/zeta".to_vec(), b"/".to_vec(), b"/y/alpha".to_vec()];
    let sorted = sort_sources(&srcs).unwrap();
    let names: Vec<BackupLogPath> = sorted.iter().map(|s| s.backup_path.clone()).collect();
    assert_eq!(names, vec![path("alpha"), path("root"), path("zeta")]);
    assert_eq!(sorted[1].path, b"/".to_vec());
    let dup = vec![b"/x/docs".to_vec(), b"/y/docs".to_vec()];
    assert_eq!(sort_sources(&dup), Err(SourceError::DuplicateName));
}

#[test]
fn children_walk_in_byte_order_of_full_paths() {
    let names = vec![b"a".to_vec(), b"a.txt".to_vec(), b"b".to_vec(), b"A".to_vec()];
    let dirs = vec![true, false, false, false];
    // "A" < "a.txt" < "a/" < "b"
    assert_eq!(order_children(&names, &dirs).unwrap(), vec![3, 1, 0, 2]);
}

#[test]
fn retention_keeps_newest_and_first_after_each_desired_time() {
    let now = 100_000;
    let times = vec![now - 10_000, now - 7_000, now - 3_500, now - 100];
    let plan = RetentionPlan { periods: vec![Period { instances: 3, interval: 3600 }] };
    // desired times: now-3600, now-7200
    let (keep, warn) = determine_backups_to_keep(&times, now, &plan, 0);
    assert_eq!(keep, vec![false, true, true, true]);
    assert!(!warn);
    let (_, warn) = determine_backups_to_keep(&times, now, &plan, 2);
    assert!(warn);
}

#[test]
fn retention_refinement_keeps_more() {
    let now = 1_000_000;
    let times: Vec<i64> = (0..10).map(|i| now - 3600 * (10 - i) + 60).collect();
    let small = RetentionPlan { periods: vec![Period { instances: 3, interval: 3600 }] };
    let large = RetentionPlan { periods: vec![Period { instances: 6, interval: 3600 }] };
    let (a, _) = determine_backups_to_keep(&times, now, &large, 0);
    let (b, _) = determine_backups_to_keep(&times, now, &small, 0);
    for i in 0..times.len() {
        assert!(!b[i] || a[i]);
    }
    assert!(a.iter().filter(|k| **k).count() > b.iter().filter(|k| **k).count());
}

#[test]
fn retention_edge_cases() {
    let plan = RetentionPlan::default();
    assert_eq!(plan.periods, vec![Period { instances: 24, interval: 3600 }, Period { instances: 7, interval: 86400 }]);
    assert_eq!(determine_backups_to_keep(&vec![], 0, &plan, 0).0, Vec::<bool>::new());
    assert_eq!(determine_backups_to_keep(&vec![5], 0, &plan, 0).0, vec![true]);
    // A desired time in the deep past is met by the oldest snapshot; one after all snapshots keeps none.
    let far = RetentionPlan { periods: vec![Period { instances: 2, interval: 1_000_000 }] };
    assert_eq!(determine_backups_to_keep(&vec![10, 20, 30], 40, &far, 0).0, vec![true, false, true]);
    let future = RetentionPlan { periods: vec![Period { instances: 2, interval: -100 }] };
    assert_eq!(determine_backups_to_keep(&vec![10, 20, 30], 40, &future, 0).0, vec![false, false, true]);
}

#[test]
fn stats_track_counts_and_ranges() {
    let mut s = BackupStats::started_at(5);
    assert_eq!(s.mtimes(), Interval { lo: 1, hi: 0 });
    assert!(s.mtimes().is_empty());
    s.report_write(10, 50);
    s.report_link(-20);
    s.report_delete(3);
    s.report_done_at(99);
    assert_eq!((s.num_writes, s.num_hardlinks, s.num_deletes), (1, 1, 1));
    assert_eq!((s.bytes_written, s.bytes_deleted), (10, 3));
    assert_eq!(s.mtimes(), Interval { lo: -20, hi: 50 });
    assert_eq!(s.mtimes_written(), Interval { lo: 50, hi: 50 });
    assert_eq!(s.backup_end_mtime, Some(99));
    let mut full = BackupStats::started_at(0);
    full.bytes_written = u64::MAX - 1;
    full.num_writes = i32::MAX;
    full.report_write(5, 0);
    assert_eq!((full.num_writes, full.bytes_written), (i32::MAX, u64::MAX));
    let fresh = BackupStats::new();
    assert_eq!(fresh.num_writes, 0);
    assert!(fresh.backup_end_mtime.is_none());
}

#[test]
fn intervals() {
    let mut i = Interval { lo: 1, hi: 0 };
    assert!(i.is_empty());
    assert!(!i.contains(&0));
    i.expand(&5);
    assert_eq!(i, Interval { lo: 1, hi: 5 });
    let a = Interval { lo: 0, hi: 10 };
    assert!(a.overlaps(&Interval { lo: 3, hi: 4 }));
    assert!(Interval { lo: 3, hi: 4 }.overlaps(&a));
    assert!(a.overlaps(&Interval { lo: 10, hi: 20 }));
    assert!(!a.overlaps(&Interval { lo: 11, hi: 20 }));
    assert!(!a.overlaps(&Interval { lo: 1, hi: 0 }));
    assert!(a.contains(&10) && !a.contains(&11));
}

#[test]
fn parser_fields_and_seeks() {
    let mut p = HybridFileParser::new(b"ab;  42 ;-7;1f;xyz".to_vec());
    assert_eq!(p.read_string(10, b';').unwrap(), "ab".to_string());
    assert_eq!(p.read_u64(b';').unwrap(), 42);
    assert_eq!(p.read_i64(b';').unwrap(), -7);
    assert_eq!(p.read_hex_u64(b';').unwrap(), 31);
    assert_eq!(p.read_path(2).unwrap(), b"xy".to_vec());
    assert!(!p.is_depleted());
    assert_eq!(p.skip_bytes(-20), Err(ReadError::InvalidInput));
    assert_eq!(p.skip_bytes(1), Ok(()));
    assert!(p.is_depleted());
    let mut p = HybridFileParser::new(b"abcdef".to_vec());
    assert_eq!(p.read_until_limited(3, b';'), Err(ReadError::InvalidData));
    let mut p = HybridFileParser::new(b"abc;".to_vec());
    assert_eq!(p.read_until_limited(3, b';'), Ok(b"abc".to_vec()));
    let mut p = HybridFileParser::new(b"ab".to_vec());
    assert_eq!(p.read_until_limited(3, b';'), Err(ReadError::UnexpectedEof));
    let mut p = HybridFileParser::new(vec![0xff, b';']);
    assert_eq!(p.read_string(10, b';'), Err(ReadError::InvalidData));
}

#[test]
fn path_join_and_compare() {
    assert_eq!(path("docs").join(b"a.txt"), path("docs/a.txt"));
    assert_eq!(path("docs/").join(b"a.txt"), path("docs/a.txt"));
    assert_eq!(path("").join(b"a.txt"), path("a.txt"));
    assert_eq!(path("docs").join(b"/abs"), path("/abs"));
    assert_eq!(path("docs").bytes_len(), 4);
    assert_eq!(path("docs").as_bytes(), b"docs");
}

#[test]
fn snapshots_ordered_by_time_then_name() {
    let e = |time: i64, name: &str| SnapshotEntry { time, name: path(name) };
    let entries = vec![e(60, "2024-01-01_00-01"), e(0, "2024-01-01_00-00_1"), e(0, "2024-01-01_00-00")];
    assert_eq!(order_snapshots(&entries).unwrap(), vec![2, 1, 0]);
    assert!(order_snapshots(&vec![e(5, "x"), e(5, "x")]).is_none());
}

#[test]
fn new_snapshot_names() {
    assert_eq!(snapshot_dir_name(b"2024-05-06_07-08", 0), b"2024-05-06_07-08".to_vec());
    assert_eq!(snapshot_dir_name(b"2024-05-06_07-08", 1), b"2024-05-06_07-08_1".to_vec());
    assert_eq!(snapshot_dir_name(b"2024-05-06_07-08", 10), b"2024-05-06_07-08_10".to_vec());
}
