use biu::codec::ReadError;
use biu::log::{
    decode_all, BackupFileStats, BackupLog, BackupLogIterator, BackupLogPath, DeleteData, LogEntry,
    NewFilesLogIterator, AllFilesLogIterator,
};
use biu::writer::BackupLogWriter;

fn path(s: &str) -> BackupLogPath {
    BackupLogPath::new(s.as_bytes().to_vec())
}

fn file(p: &str, xxh3: u64, mtime: i64, size: u64) -> BackupFileStats {
    BackupFileStats { path: path(p), xxh3, mtime, size }
}

#[test]
fn parseable_lines() {
    let text = ["w;0394b8fafef76701;1234;56788;15;Downloads/1.mp3", "d;0;0;0;15;Downloads/2.mp3"].join("\n");
    let mut it = BackupLogIterator::new(text.as_bytes().to_vec());
    assert_eq!(
        it.next().unwrap().unwrap(),
        LogEntry::Write(BackupFileStats {
            size: 56788,
            xxh3: 258034466825922305,
            mtime: 1234,
            path: path("Downloads/1.mp3"),
        })
    );
    assert_eq!(
        it.next().unwrap().unwrap(),
        LogEntry::Delete(DeleteData { path: path("Downloads/2.mp3"), size: 0 })
    );
}

// A link is read back as a link, and a deletion carries size 0 in the log.
#[test]
fn logwriter() {
    let mut w = BackupLogWriter::new();
    let (foo, foo2, foo3) = (path("Documents/foo.txt"), path("Documents/foo2.txt"), path("Documents/foo3.txt"));
    assert!(w.accepts(&foo));
    w.report_write(&foo, 123, 456, 789);
    assert!(w.accepts(&foo2));
    w.report_hardlink(&foo2, 234, 567, 890);
    assert!(w.accepts(&foo3));
    w.report_delete(&foo3, 10);
    let (bytes, stats) = w.finalize();
    assert_eq!(stats.num_writes, 1);
    assert_eq!(stats.num_hardlinks, 1);
    assert_eq!(stats.num_deletes, 1);
    assert_eq!(stats.bytes_deleted, 10);
    assert!(stats.backup_end_mtime.is_some());

    let mut it = BackupLogIterator::new(bytes);
    assert_eq!(it.next().unwrap().unwrap(), LogEntry::Write(file("Documents/foo.txt", 123, 456, 789)));
    assert_eq!(it.next().unwrap().unwrap(), LogEntry::Link(file("Documents/foo2.txt", 234, 567, 890)));
    assert_eq!(
        it.next().unwrap().unwrap(),
        LogEntry::Delete(DeleteData { path: path("Documents/foo3.txt"), size: 0 })
    );
    assert!(it.next().is_none());
}

#[test]
fn path_not_utf8() {
    let mut w = BackupLogWriter::new();
    // "foo<BEL>"
    let non_utf8 = BackupLogPath::new(vec![102, 111, 111, 7]);
    w.report_write(&non_utf8, 123, 456, 789);
    // Path with separator char
    let with_separator = path("Documents/@;54;.foo");
    w.report_write(&with_separator, 123, 456, 789);
    let (bytes, _) = w.finalize();

    let mut it = BackupLogIterator::new(bytes);
    assert_eq!(
        it.next().unwrap().unwrap(),
        LogEntry::Write(BackupFileStats { size: 789, xxh3: 123, mtime: 456, path: non_utf8.clone() })
    );
    assert_eq!(
        it.next().unwrap().unwrap(),
        LogEntry::Write(BackupFileStats { size: 789, xxh3: 123, mtime: 456, path: with_separator.clone() })
    );
    assert!(it.next().is_none());
}

#[test]
fn any_record_order_round_trips() {
    let mut w = BackupLogWriter::new();
    w.report_delete(&path("z"), 4);
    w.report_write(&path("a"), 1, 2, 3);
    w.report_hardlink(&path("a"), 5, 6, 7);
    let (bytes, _) = w.finalize();
    assert_eq!(
        decode_all(&BackupLog::create(bytes)).unwrap(),
        vec![
            LogEntry::Delete(DeleteData { path: path("z"), size: 0 }),
            LogEntry::Write(file("a", 1, 2, 3)),
            LogEntry::Link(file("a", 5, 6, 7)),
        ]
    );
}

#[test]
fn writer_text_is_byte_exact() {
    let mut w = BackupLogWriter::new();
    w.report_write(&path("a"), 255, -3, 11);
    w.report_delete(&path("b"), 7);
    let (bytes, _) = w.finalize();
    assert_eq!(bytes, b"w;ff;-3;11;1;a\nd;0;0;0;1;b\n".to_vec());
}

#[test]
fn round_trip_extreme_numbers_and_newline_in_path() {
    let mut w = BackupLogWriter::new();
    let odd = BackupLogPath::new(vec![b'a', b'\n', b';', 0xff]);
    let plain = path("b");
    w.report_write(&odd, u64::MAX, i64::MIN, u64::MAX);
    w.report_hardlink(&plain, 0, i64::MAX, 0);
    let (bytes, _) = w.finalize();
    let entries = decode_all(&BackupLog::create(bytes)).unwrap();
    assert_eq!(
        entries,
        vec![
            LogEntry::Write(BackupFileStats { path: odd, xxh3: u64::MAX, mtime: i64::MIN, size: u64::MAX }),
            LogEntry::Link(file("b", 0, i64::MAX, 0)),
        ]
    );
}

#[test]
fn writer_refuses_paths_out_of_order() {
    let mut w = BackupLogWriter::new();
    w.report_write(&path("b"), 1, 1, 1);
    assert!(!w.accepts(&path("b")));
    assert!(!w.accepts(&path("a")));
    assert!(w.accepts(&path("b/")));
    assert!(w.accepts(&path("c")));
}

#[test]
fn unknown_operation_is_invalid_data() {
    let mut it = BackupLogIterator::new(b"x;0;0;0;1;a\n".to_vec());
    assert_eq!(it.next().unwrap(), Err(ReadError::InvalidData));
    assert!(it.next().is_none());
}

#[test]
fn truncated_record_is_unexpected_eof() {
    let mut it = BackupLogIterator::new(b"w;ff;1;2;10;abc".to_vec());
    assert_eq!(it.next().unwrap(), Err(ReadError::UnexpectedEof));
    let mut it = BackupLogIterator::new(b"w;ff;1".to_vec());
    assert_eq!(it.next().unwrap(), Err(ReadError::UnexpectedEof));
}

#[test]
fn overlong_or_malformed_fields_are_invalid_data() {
    let longest = format!("w;{};1;2;1;a\n", "0".repeat(30));
    let mut it = BackupLogIterator::new(longest.into_bytes());
    assert_eq!(it.next().unwrap().unwrap(), LogEntry::Write(file("a", 0, 1, 2)));
    let long = format!("w;{};1;2;1;a\n", "0".repeat(31));
    let mut it = BackupLogIterator::new(long.into_bytes());
    assert_eq!(it.next().unwrap(), Err(ReadError::InvalidData));
    let mut it = BackupLogIterator::new(b"wwwwwwwwwww;1;1;2;1;a\n".to_vec());
    assert_eq!(it.next().unwrap(), Err(ReadError::InvalidData));
    let mut it = BackupLogIterator::new(b"w;fg;1;2;1;a\n".to_vec());
    assert_eq!(it.next().unwrap(), Err(ReadError::InvalidData));
    let mut it = BackupLogIterator::new(b"w;1;1;18446744073709551616;1;a\n".to_vec());
    assert_eq!(it.next().unwrap(), Err(ReadError::InvalidData));
    let mut it = BackupLogIterator::new(b"w;1;-9223372036854775809;2;1;a\n".to_vec());
    assert_eq!(it.next().unwrap(), Err(ReadError::InvalidData));
}

#[test]
fn numbers_are_trimmed_and_signed() {
    let mut it = BackupLogIterator::new(b"l; FF ;+5; 7\t;1;z\n".to_vec());
    assert_eq!(it.next().unwrap().unwrap(), LogEntry::Link(file("z", 255, 5, 7)));
}

#[test]
fn filtered_views_skip_records() {
    let text = b"w;1;0;1;1;a\nl;2;0;2;1;b\nd;0;0;0;1;c\nw;3;0;3;1;d\n".to_vec();
    let mut all = AllFilesLogIterator::new(BackupLogIterator::new(text.clone()));
    let mut seen = vec![];
    while let Some(f) = all.next() {
        seen.push(f.unwrap().xxh3);
    }
    assert_eq!(seen, vec![1, 2, 3]);
    let mut new_files = NewFilesLogIterator::from(BackupLogIterator::new(text));
    let mut seen = vec![];
    while let Some(f) = new_files.next() {
        seen.push(f.unwrap().xxh3);
    }
    assert_eq!(seen, vec![1, 3]);
}

#[test]
fn empty_log_has_no_records() {
    let mut it = BackupLogIterator::empty();
    assert!(it.next().is_none());
    assert_eq!(decode_all(&BackupLog::create(vec![])).unwrap(), vec![]);
}
