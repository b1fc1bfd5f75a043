use biu::dedup::{is_verified_duplicate, link_tmp_name, DedupPlanner, DeduplicationOptions, SnapshotScope};
use biu::hashing::ContentHasher;
use biu::interval::Interval;
use biu::log::{BackupLog, BackupLogPath};
use biu::stats::BackupStats;
use biu::writer::BackupLogWriter;

fn hash_of(content: &str) -> u64 {
    let mut h = ContentHasher::new();
    h.update(content.as_bytes());
    h.finish()
}

enum Op<'a> {
    Write(&'a str, &'a str),
    Link(&'a str, &'a str),
}

fn snapshot(ops: &[Op]) -> (BackupLog, BackupStats) {
    let mut w = BackupLogWriter::new();
    for op in ops {
        match op {
            Op::Write(p, c) => {
                let path = BackupLogPath::new(p.as_bytes().to_vec());
                assert!(w.accepts(&path));
                w.report_write(&path, hash_of(c), 100, c.len() as u64);
            }
            Op::Link(p, c) => {
                let path = BackupLogPath::new(p.as_bytes().to_vec());
                assert!(w.accepts(&path));
                w.report_hardlink(&path, hash_of(c), 100, c.len() as u64);
            }
        }
    }
    let (bytes, stats) = w.finalize();
    (BackupLog::create(bytes), stats)
}

fn options() -> DeduplicationOptions {
    DeduplicationOptions { deep_compare: false, preserve_mtime: false, min_bytes_for_dedup: 0 }
}

/// Runs the planner over snapshots (oldest first) and returns each link group
/// as sorted `(snapshot, path)` pairs, the anchor among them.
fn link_groups(logs: &[(BackupLog, BackupStats)], opts: &DeduplicationOptions) -> Vec<Vec<(usize, String)>> {
    let latest = logs.len() - 1;
    let older = (0..latest).map(|i| SnapshotScope { index: i, mtimes: Some(logs[i].1.mtimes()) }).collect();
    let mut planner = match DedupPlanner::start(&logs[latest].0, latest, &logs[latest].1, older, opts).unwrap() {
        Some(p) => p,
        None => return vec![],
    };
    assert!(planner.is_filter_complete());
    let mut groups = vec![];
    while !planner.is_done() {
        if let Some(i) = planner.next_snapshot() {
            planner.absorb(i, &logs[i].0).unwrap();
        }
        for job in planner.plan() {
            if job.targets.is_empty() {
                continue;
            }
            let name = |id: usize| {
                let l = planner.location(id).unwrap();
                (l.snapshot, String::from_utf8(l.path.0.clone()).unwrap())
            };
            let mut g: Vec<(usize, String)> = job.targets.iter().map(|t| name(*t)).collect();
            g.push(name(job.anchor));
            g.sort();
            groups.push(g);
        }
    }
    groups.sort();
    groups
}

#[test]
fn initial_backup_with_one_file_has_no_links() {
    let s = snapshot(&[Op::Write("source/a.txt", "Hello World")]);
    assert!(link_groups(&[s], &options()).is_empty());
}

#[test]
fn initial_backup_with_equal_files_links_them() {
    let s = snapshot(&[Op::Write("source/a.txt", "Hello World"), Op::Write("source/b/b.foo", "Hello World")]);
    assert_eq!(
        link_groups(&[s], &options()),
        vec![vec![(0, "source/a.txt".to_string()), (0, "source/b/b.foo".to_string())]]
    );
}

#[test]
fn dedup_against_older_snapshot() {
    let s1 = snapshot(&[Op::Write("source/a.txt", "Hello World")]);
    let s2 = snapshot(&[
        Op::Link("source/a.txt", "Hello World"),
        Op::Write("source/a/a.foo", "Hello World"),
        Op::Write("source/b/b.foo", "file b"),
        Op::Write("source/b/c.foo", "I am file c"),
        Op::Write("source/c.orig", "I am file c"),
    ]);
    let groups = link_groups(&[s1, s2], &options());
    assert_eq!(groups.len(), 2);
    // The link in the newest snapshot anchors the new copy of the same content.
    assert_eq!(groups[0], vec![(1, "source/a.txt".to_string()), (1, "source/a/a.foo".to_string())]);
    assert_eq!(groups[1], vec![(1, "source/b/c.foo".to_string()), (1, "source/c.orig".to_string())]);
}

#[test]
fn older_copy_anchors_new_write() {
    let s1 = snapshot(&[Op::Write("x/old.txt", "same bytes")]);
    let s2 = snapshot(&[Op::Write("x/new.txt", "same bytes")]);
    assert_eq!(
        link_groups(&[s1, s2], &options()),
        vec![vec![(0, "x/old.txt".to_string()), (1, "x/new.txt".to_string())]]
    );
}

#[test]
fn nothing_written_means_no_planning() {
    let s = snapshot(&[Op::Link("a", "content")]);
    let opts = options();
    assert!(DedupPlanner::start(&s.0, 0, &s.1, vec![], &opts).unwrap().is_none());
    let s = snapshot(&[Op::Write("a", "content")]);
    let opts = DeduplicationOptions { min_bytes_for_dedup: 100, ..options() };
    assert!(DedupPlanner::start(&s.0, 0, &s.1, vec![], &opts).unwrap().is_none());
}

#[test]
fn preserved_mtimes_prune_snapshots_out_of_range() {
    let s1 = snapshot(&[Op::Write("a", "same")]);
    let s2 = snapshot(&[Op::Write("b", "same")]);
    let opts = DeduplicationOptions { preserve_mtime: true, ..options() };
    let out_of_range = SnapshotScope { index: 0, mtimes: Some(Interval { lo: 500, hi: 600 }) };
    let mut planner = DedupPlanner::start(&s2.0, 1, &s2.1, vec![out_of_range], &opts).unwrap().unwrap();
    assert_eq!(planner.next_snapshot(), None);
    let unknown = SnapshotScope { index: 0, mtimes: None };
    let mut planner = DedupPlanner::start(&s2.0, 1, &s2.1, vec![unknown], &opts).unwrap().unwrap();
    assert_eq!(planner.next_snapshot(), Some(0));
    planner.absorb(0, &s1.0).unwrap();
    let jobs = planner.plan();
    assert_eq!(jobs.len(), 1);
    assert_eq!(jobs[0].targets.len(), 1);
}

#[test]
fn verification_of_targets() {
    assert!(is_verified_duplicate(10, 1, 10, 2, false));
    assert!(!is_verified_duplicate(10, 1, 10, 2, true));
    assert!(is_verified_duplicate(10, 5, 10, 5, true));
    assert!(!is_verified_duplicate(10, 5, 11, 5, false));
}

#[test]
fn temporary_link_names() {
    assert_eq!(link_tmp_name(b"f.txt", 0), b"f.txt.as_link".to_vec());
    assert_eq!(link_tmp_name(b"f.txt", 1), b"f.txt.as_link0".to_vec());
    assert_eq!(link_tmp_name(b"f.txt", 12), b"f.txt.as_link11".to_vec());
}

#[test]
fn stream_and_one_shot_hashes() {
    let mut h = ContentHasher::new();
    h.update(b"Hello ");
    h.update(b"World");
    assert_eq!(h.finish(), xxhash_rust::xxh3::xxh3_64(b"Hello World"));
    assert_eq!(biu::hashing::symlink_hash(b"target"), xxhash_rust::xxh3::xxh3_64(b"target"));
    assert_ne!(biu::hashing::symlink_hash(b"target"), biu::hashing::symlink_hash(b"other"));
    assert_ne!(hash_of("file b"), hash_of("I am file c"));
}
