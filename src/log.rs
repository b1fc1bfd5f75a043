//! Backup log records: paths, the record text, and reading it back.
use vstd::prelude::*;

use crate::codec::{
    dec_digits, hex_digits, parse_signed, parse_unsigned, signed_digits, ReadError, DELIMITER,
    NEWLINE,
};
use crate::codec::{dec_bytes, hex_bytes, lemma_parse_dec, lemma_parse_hex, lemma_parse_signed};
use crate::parser::{copy_range, field_at, lemma_field_advances, lemma_scan_found, HybridFileParser};

verus! {

/// `a` sorts strictly before `b`, byte by byte, a proper prefix first.
pub open spec fn bytes_lt(a: Seq<u8>, b: Seq<u8>) -> bool {
    exists|i: int|
        0 <= i <= a.len() && i <= b.len() && #[trigger] a.subrange(0, i) == b.subrange(0, i) && ((i
            == a.len() && i < b.len()) || (i < a.len() && i < b.len() && a[i] < b[i]))
}

/// `base` joined with `name` as a file system path: an absolute `name`
/// replaces `base`, and a separator goes between them where `base` has none.
pub open spec fn join_path(base: Seq<u8>, name: Seq<u8>) -> Seq<u8> {
    if name.len() > 0 && name[0] == 47 {
        name
    } else if base.len() == 0 || base.last() == 47 {
        base + name
    } else {
        base + seq![47u8] + name
    }
}

/// A path as it appears in the backup log: raw bytes, relative to a snapshot.
#[derive(Debug, Clone, PartialEq, Eq, Hash)]
pub struct BackupLogPath(pub Vec<u8>);

impl View for BackupLogPath {
    type V = Seq<u8>;

    open spec fn view(&self) -> Seq<u8> {
        self.0@
    }
}

/// No path sorts before itself, and of two paths at most one sorts first.
pub proof fn lemma_bytes_lt_asym(a: Seq<u8>, b: Seq<u8>)
    ensures
        !(bytes_lt(a, b) && bytes_lt(b, a)),
        !bytes_lt(a, a),
{
    if bytes_lt(a, b) && bytes_lt(b, a) {
        let i = choose|i: int|
            0 <= i <= a.len() && i <= b.len() && #[trigger] a.subrange(0, i) == b.subrange(0, i)
                && ((i == a.len() && i < b.len()) || (i < a.len() && i < b.len() && a[i] < b[i]));
        let j = choose|j: int|
            0 <= j <= b.len() && j <= a.len() && #[trigger] b.subrange(0, j) == a.subrange(0, j)
                && ((j == b.len() && j < a.len()) || (j < b.len() && j < a.len() && b[j] < a[j]));
        if i < j {
            assert(a.subrange(0, j)[i] == b.subrange(0, j)[i]);
        } else if j < i {
            assert(a.subrange(0, i)[j] == b.subrange(0, i)[j]);
        }
    }
    if bytes_lt(a, a) {
        let i = choose|i: int|
            0 <= i <= a.len() && i <= a.len() && #[trigger] a.subrange(0, i) == a.subrange(0, i)
                && ((i == a.len() && i < a.len()) || (i < a.len() && i < a.len() && a[i] < a[i]));
    }
}

/// The order of paths is transitive.
pub proof fn lemma_bytes_lt_trans(a: Seq<u8>, b: Seq<u8>, c: Seq<u8>)
    requires
        bytes_lt(a, b),
        bytes_lt(b, c),
    ensures
        bytes_lt(a, c),
{
    let i = choose|i: int|
        0 <= i <= a.len() && i <= b.len() && #[trigger] a.subrange(0, i) == b.subrange(0, i) && ((i
            == a.len() && i < b.len()) || (i < a.len() && i < b.len() && a[i] < b[i]));
    let j = choose|j: int|
        0 <= j <= b.len() && j <= c.len() && #[trigger] b.subrange(0, j) == c.subrange(0, j) && ((j
            == b.len() && j < c.len()) || (j < b.len() && j < c.len() && b[j] < c[j]));
    let m = if i < j { i } else { j };
    assert(a.subrange(0, m) =~= c.subrange(0, m)) by {
        assert forall|k: int| 0 <= k < m implies a.subrange(0, m)[k] == c.subrange(0, m)[k] by {
            assert(a.subrange(0, i)[k] == b.subrange(0, i)[k]);
            assert(b.subrange(0, j)[k] == c.subrange(0, j)[k]);
        }
    }
    if i < j {
        assert(b.subrange(0, j)[i] == c.subrange(0, j)[i]);
    } else if j < i {
        assert(a.subrange(0, i)[j] == b.subrange(0, i)[j]);
    }
    assert(0 <= m <= a.len() && m <= c.len() && a.subrange(0, m) == c.subrange(0, m) && ((m
        == a.len() && m < c.len()) || (m < a.len() && m < c.len() && a[m] < c[m])));
}

/// Where a comparison of two paths ends.
#[derive(Debug, Clone, Copy, PartialEq, Eq, Structural)]
pub enum PathOrder {
    Less,
    Equal,
    Greater,
}

impl BackupLogPath {
    pub fn new(bytes: Vec<u8>) -> (r: BackupLogPath)
        ensures
            r@ == bytes@,
    {
        BackupLogPath(bytes)
    }

    /// Length in bytes.
    pub fn bytes_len(&self) -> (r: usize)
        ensures
            r == self@.len(),
    {
        self.0.len()
    }

    pub fn as_bytes(&self) -> (r: &[u8])
        ensures
            r@ == self@,
    {
        self.0.as_slice()
    }

    /// A second path with the same bytes.
    pub fn duplicate(&self) -> (r: BackupLogPath)
        ensures
            r@ == self@,
    {
        let mut v: Vec<u8> = Vec::with_capacity(self.0.len());
        let mut i: usize = 0;
        while i < self.0.len()
            invariant
                i <= self.0.len(),
                v@ == self.0@.subrange(0, i as int),
            decreases self.0.len() - i,
        {
            v.push(self.0[i]);
            i = i + 1;
            assert(v@ =~= self.0@.subrange(0, i as int));
        }
        assert(v@ =~= self.0@);
        BackupLogPath(v)
    }

    /// This path with `name` appended as a further component.
    pub fn join(&self, name: &[u8]) -> (r: BackupLogPath)
        ensures
            r@ == join_path(self@, name@),
    {
        if name.len() > 0 && name[0] == 47 {
            let mut v: Vec<u8> = Vec::new();
            append_slice(&mut v, name);
            return BackupLogPath(v);
        }
        let mut v = self.duplicate().0;
        if !(v.len() == 0 || v[v.len() - 1] == 47) {
            v.push(47);
        }
        append_slice(&mut v, name);
        proof {
            if !(self@.len() == 0 || self@.last() == 47) {
                assert(v@ =~= self@ + seq![47u8] + name@);
            } else {
                assert(v@ =~= self@ + name@);
            }
        }
        BackupLogPath(v)
    }

    /// Compares two paths byte by byte.
    pub fn compare(&self, other: &BackupLogPath) -> (r: PathOrder)
        ensures
            r == PathOrder::Less ==> bytes_lt(self@, other@),
            r == PathOrder::Greater ==> bytes_lt(other@, self@),
            r == PathOrder::Equal <==> self@ == other@,
    {
        let a = &self.0;
        let b = &other.0;
        let mut i: usize = 0;
        while i < a.len() && i < b.len() && a[i] == b[i]
            invariant
                i <= a.len(),
                i <= b.len(),
                a@.subrange(0, i as int) == b@.subrange(0, i as int),
            decreases a.len() - i,
        {
            assert(a@.subrange(0, i + 1) =~= a@.subrange(0, i as int).push(a@[i as int]));
            assert(b@.subrange(0, i + 1) =~= b@.subrange(0, i as int).push(b@[i as int]));
            i = i + 1;
        }
        if i == a.len() && i == b.len() {
            assert(a@ =~= a@.subrange(0, i as int));
            assert(b@ =~= b@.subrange(0, i as int));
            PathOrder::Equal
        } else if i == a.len() || (i < b.len() && a[i] < b[i]) {
            assert(a@.subrange(0, i as int) == b@.subrange(0, i as int));
            PathOrder::Less
        } else {
            assert(b@.subrange(0, i as int) == a@.subrange(0, i as int));
            PathOrder::Greater
        }
    }
}

pub fn append_slice(v: &mut Vec<u8>, s: &[u8])
    ensures
        final(v)@ == old(v)@ + s@,
{
    let mut i: usize = 0;
    while i < s.len()
        invariant
            i <= s@.len(),
            v@ == old(v)@ + s@.subrange(0, i as int),
        decreases s@.len() - i,
    {
        v.push(s[i]);
        i = i + 1;
        assert(v@ =~= old(v)@ + s@.subrange(0, i as int));
    }
    assert(s@.subrange(0, s@.len() as int) =~= s@);
}

/// What the log records of a file present in a snapshot.
#[derive(Debug, Clone, PartialEq, Eq, Hash)]
pub struct BackupFileStats {
    pub path: BackupLogPath,
    pub xxh3: u64,
    pub mtime: i64,
    pub size: u64,
}

/// What the log records of a file gone since the previous snapshot.
#[derive(Debug, Clone, PartialEq, Eq)]
pub struct DeleteData {
    pub path: BackupLogPath,
    pub size: u64,
}

/// One record of a backup log.
#[derive(Debug, Clone, PartialEq, Eq)]
pub enum LogEntry {
    /// The file was written with fresh content.
    Write(BackupFileStats),
    /// The file was hard-linked to the previous snapshot's copy.
    Link(BackupFileStats),
    /// The file is gone since the previous snapshot.
    Delete(DeleteData),
}

/// The value of a `BackupFileStats`.
pub struct FileRecord {
    pub path: Seq<u8>,
    pub xxh3: u64,
    pub mtime: i64,
    pub size: u64,
}

/// The value of a `LogEntry`.
pub enum Record {
    Write(FileRecord),
    Link(FileRecord),
    Delete { path: Seq<u8>, size: u64 },
}

impl View for BackupFileStats {
    type V = FileRecord;

    open spec fn view(&self) -> FileRecord {
        FileRecord { path: self.path@, xxh3: self.xxh3, mtime: self.mtime, size: self.size }
    }
}

impl View for LogEntry {
    type V = Record;

    open spec fn view(&self) -> Record {
        match self {
            LogEntry::Write(f) => Record::Write(f@),
            LogEntry::Link(f) => Record::Link(f@),
            LogEntry::Delete(d) => Record::Delete { path: d.path@, size: d.size },
        }
    }
}

impl Record {
    /// The file that a write or link record names.
    pub open spec fn file_of(self) -> FileRecord {
        match self {
            Record::Write(f) => f,
            Record::Link(f) => f,
            Record::Delete { path, size } => FileRecord { path, xxh3: 0, mtime: 0, size },
        }
    }
}

pub open spec fn record_path(r: Record) -> Seq<u8> {
    match r {
        Record::Write(f) => f.path,
        Record::Link(f) => f.path,
        Record::Delete { path, .. } => path,
    }
}

pub const OP_WRITE: u8 = 119;

pub const OP_LINK: u8 = 108;

pub const OP_DELETE: u8 = 100;

/// A field followed by its delimiter.
pub open spec fn field(x: Seq<u8>) -> Seq<u8> {
    x.push(DELIMITER)
}

/// One record as text: `<op>;<hash-hex>;<mtime>;<size>;<path-len>;<path>\n`.
pub open spec fn encode_fields(op: u8, hash: u64, mtime: i64, size: u64, path: Seq<u8>) -> Seq<
    u8,
> {
    field(seq![op]) + (field(hex_digits(hash as nat)) + (field(signed_digits(mtime as int)) + (
    field(dec_digits(size as nat)) + (field(dec_digits(path.len())) + path.push(NEWLINE)))))
}

/// A record as the writer puts it down; a deletion carries zeros for hash,
/// mtime and size.
pub open spec fn encode_record(r: Record) -> Seq<u8> {
    match r {
        Record::Write(f) => encode_fields(OP_WRITE, f.xxh3, f.mtime, f.size, f.path),
        Record::Link(f) => encode_fields(OP_LINK, f.xxh3, f.mtime, f.size, f.path),
        Record::Delete { path, .. } => encode_fields(OP_DELETE, 0, 0, 0, path),
    }
}

/// A sequence of records as the writer puts it down.
pub open spec fn encode_log(rs: Seq<Record>) -> Seq<u8>
    decreases rs.len(),
{
    if rs.len() == 0 {
        Seq::empty()
    } else {
        encode_record(rs[0]) + encode_log(rs.drop_first())
    }
}

/// The operation that a one-byte field names.
pub open spec fn op_code(f: Seq<u8>) -> Option<u8> {
    if f.len() == 1 && (f[0] == OP_WRITE || f[0] == OP_LINK || f[0] == OP_DELETE) {
        Some(f[0])
    } else {
        None
    }
}

pub open spec fn record_of(op: u8, path: Seq<u8>, hash: u64, mtime: i64, size: u64) -> Record {
    if op == OP_WRITE {
        Record::Write(FileRecord { path, xxh3: hash, mtime, size })
    } else if op == OP_LINK {
        Record::Link(FileRecord { path, xxh3: hash, mtime, size })
    } else {
        Record::Delete { path, size }
    }
}

/// The record whose text starts at `i`, and the index just past it. The
/// operation field holds at most 10 bytes, each number field at most 30;
/// then come exactly as many path bytes as announced, and one more byte (the
/// newline) is skipped where there is one.
pub open spec fn parse_record(s: Seq<u8>, i: int) -> Result<(Record, int), ReadError> {
    match field_at(s, i, 10, DELIMITER) {
        Err(e) => Err(e),
        Ok((of, i1)) => match op_code(of) {
            None => Err(ReadError::InvalidData),
            Some(op) => match field_at(s, i1, 30, DELIMITER) {
                Err(e) => Err(e),
                Ok((hf, i2)) => match parse_unsigned(hf, 16) {
                    None => Err(ReadError::InvalidData),
                    Some(hash) => match field_at(s, i2, 30, DELIMITER) {
                        Err(e) => Err(e),
                        Ok((mf, i3)) => match parse_signed(mf) {
                            None => Err(ReadError::InvalidData),
                            Some(mtime) => match field_at(s, i3, 30, DELIMITER) {
                                Err(e) => Err(e),
                                Ok((sf, i4)) => match parse_unsigned(sf, 10) {
                                    None => Err(ReadError::InvalidData),
                                    Some(size) => match field_at(s, i4, 30, DELIMITER) {
                                        Err(e) => Err(e),
                                        Ok((lf, i5)) => match parse_unsigned(lf, 10) {
                                            None => Err(ReadError::InvalidData),
                                            Some(plen) => if i5 + plen > s.len() {
                                                Err(ReadError::UnexpectedEof)
                                            } else {
                                                Ok(
                                                    (
                                                        record_of(
                                                            op,
                                                            s.subrange(i5, i5 + plen),
                                                            hash,
                                                            mtime,
                                                            size,
                                                        ),
                                                        if i5 + plen < s.len() {
                                                            i5 + plen + 1
                                                        } else {
                                                            i5 + plen
                                                        },
                                                    ),
                                                )
                                            },
                                        },
                                    },
                                },
                            },
                        },
                    },
                },
            },
        },
    }
}

/// All records from index `i` to the end of the text, or the first error.
pub open spec fn decode_from(s: Seq<u8>, i: int) -> Result<Seq<Record>, ReadError>
    decreases s.len() - i,
{
    if i < 0 || i >= s.len() {
        Ok(Seq::empty())
    } else {
        match parse_record(s, i) {
            Err(e) => Err(e),
            Ok((r, j)) => if i < j {
                match decode_from(s, j) {
                    Ok(rest) => Ok(seq![r] + rest),
                    Err(e) => Err(e),
                }
            } else {
                Err(ReadError::InvalidData)
            },
        }
    }
}

/// All records of a log.
pub open spec fn decode_log(s: Seq<u8>) -> Result<Seq<Record>, ReadError> {
    decode_from(s, 0)
}


/// A record that the writer can put down and read back unchanged: a deletion
/// carries size 0, and the path length fits the length field.
pub open spec fn record_wf(r: Record) -> bool {
    &&& record_path(r).len() <= u64::MAX
    &&& (r matches Record::Delete { size, .. } ==> size == 0)
}

proof fn lemma_field_in(s: Seq<u8>, i: int, f: Seq<u8>, limit: int)
    requires
        0 <= i,
        i + f.len() < s.len(),
        s.subrange(i, i + f.len()) == f,
        s[i + f.len()] == DELIMITER,
        forall|k: int| 0 <= k < f.len() ==> #[trigger] f[k] != DELIMITER,
        f.len() <= limit,
    ensures
        field_at(s, i, limit, DELIMITER) == Ok::<(Seq<u8>, int), ReadError>((f, i + f.len() + 1)),
{
    assert forall|k: int| i <= k < i + f.len() implies s[k] != DELIMITER by {
        assert(s[k] == s.subrange(i, i + f.len())[k - i]);
    }
    lemma_scan_found(s, i, limit, DELIMITER, i + f.len());
}

/// A field at the front of known text is read back, and the rest follows it.
proof fn lemma_peel(s: Seq<u8>, i: int, x: Seq<u8>, rest: Seq<u8>, limit: int)
    requires
        0 <= i,
        i + field(x).len() + rest.len() <= s.len(),
        s.subrange(i, i + field(x).len() + rest.len()) == field(x) + rest,
        forall|k: int| 0 <= k < x.len() ==> #[trigger] x[k] != DELIMITER,
        x.len() <= limit,
    ensures
        field_at(s, i, limit, DELIMITER) == Ok::<(Seq<u8>, int), ReadError>((x, i + x.len() + 1)),
        s.subrange(i + x.len() + 1, i + x.len() + 1 + rest.len()) == rest,
{
    let t = field(x) + rest;
    assert(s.subrange(i, i + x.len()) =~= x) by {
        assert forall|k: int| 0 <= k < x.len() implies s.subrange(i, i + x.len())[k] == x[k] by {
            assert(s.subrange(i, i + t.len())[k] == t[k]);
        }
    }
    assert(s[i + x.len()] == DELIMITER) by {
        assert(s.subrange(i, i + t.len())[x.len() as int] == t[x.len() as int]);
    }
    lemma_field_in(s, i, x, limit);
    assert(s.subrange(i + x.len() + 1, i + x.len() + 1 + rest.len()) =~= rest) by {
        assert forall|k: int| 0 <= k < rest.len() implies s.subrange(
            i + x.len() + 1,
            i + x.len() + 1 + rest.len(),
        )[k] == rest[k] by {
            assert(s.subrange(i, i + t.len())[x.len() + 1 + k] == t[x.len() + 1 + k]);
        }
    }
}

#[verifier::rlimit(40)]
proof fn lemma_parse_fields(s: Seq<u8>, i: int, op: u8, hash: u64, mtime: i64, size: u64, path: Seq<u8>)
    requires
        op == OP_WRITE || op == OP_LINK || op == OP_DELETE,
        path.len() <= u64::MAX,
        0 <= i,
        i + encode_fields(op, hash, mtime, size, path).len() <= s.len(),
        s.subrange(i, i + encode_fields(op, hash, mtime, size, path).len()) == encode_fields(
            op,
            hash,
            mtime,
            size,
            path,
        ),
    ensures
        parse_record(s, i) == Ok::<(Record, int), ReadError>(
            (
                record_of(op, path, hash, mtime, size),
                i + encode_fields(op, hash, mtime, size, path).len(),
            ),
        ),
{
    let h = hex_digits(hash as nat);
    let m = signed_digits(mtime as int);
    let z = dec_digits(size as nat);
    let l = dec_digits(path.len());
    let f0 = seq![op];
    let r5 = path.push(NEWLINE);
    let r4 = field(l) + r5;
    let r3 = field(z) + r4;
    let r2 = field(m) + r3;
    let r1 = field(h) + r2;
    lemma_parse_hex(hash);
    lemma_parse_signed(mtime);
    lemma_parse_dec(size);
    lemma_parse_dec(path.len() as u64);
    assert forall|k: int| 0 <= k < h.len() implies #[trigger] h[k] != DELIMITER by {
        assert(hex_bytes(h));
    }
    assert forall|k: int| 0 <= k < z.len() implies #[trigger] z[k] != DELIMITER by {
        assert(dec_bytes(z));
    }
    assert forall|k: int| 0 <= k < l.len() implies #[trigger] l[k] != DELIMITER by {
        assert(dec_bytes(l));
    }
    assert forall|k: int| 0 <= k < f0.len() implies #[trigger] f0[k] != DELIMITER by {}
    let i1 = i + 2;
    let i2 = i1 + h.len() + 1;
    let i3 = i2 + m.len() + 1;
    let i4 = i3 + z.len() + 1;
    let i5 = i4 + l.len() + 1;
    lemma_peel(s, i, f0, r1, 10);
    lemma_peel(s, i1, h, r2, 30);
    lemma_peel(s, i2, m, r3, 30);
    lemma_peel(s, i3, z, r4, 30);
    lemma_peel(s, i4, l, r5, 30);
    assert(op_code(f0) == Some(op));
    assert(s.subrange(i5, i5 + path.len()) =~= path) by {
        assert forall|k: int| 0 <= k < path.len() implies s.subrange(i5, i5 + path.len())[k]
            == path[k] by {
            assert(s.subrange(i5, i5 + r5.len())[k] == r5[k]);
        }
    }
    assert(i5 + path.len() + 1 == i + encode_fields(op, hash, mtime, size, path).len());
}

proof fn lemma_parse_encoded(s: Seq<u8>, i: int, r: Record)
    requires
        record_wf(r),
        0 <= i,
        i + encode_record(r).len() <= s.len(),
        s.subrange(i, i + encode_record(r).len()) == encode_record(r),
    ensures
        parse_record(s, i) == Ok::<(Record, int), ReadError>((r, i + encode_record(r).len())),
{
    match r {
        Record::Write(f) => lemma_parse_fields(s, i, OP_WRITE, f.xxh3, f.mtime, f.size, f.path),
        Record::Link(f) => lemma_parse_fields(s, i, OP_LINK, f.xxh3, f.mtime, f.size, f.path),
        Record::Delete { path, size } => lemma_parse_fields(s, i, OP_DELETE, 0, 0, 0, path),
    }
}

proof fn lemma_decode_suffix(s: Seq<u8>, i: int, rs: Seq<Record>)
    requires
        0 <= i <= s.len(),
        s.subrange(i, s.len() as int) == encode_log(rs),
        forall|k: int| 0 <= k < rs.len() ==> record_wf(#[trigger] rs[k]),
    ensures
        decode_from(s, i) == Ok::<Seq<Record>, ReadError>(rs),
    decreases rs.len(),
{
    if rs.len() == 0 {
        assert(encode_log(rs) == Seq::<u8>::empty());
        assert(s.subrange(i, s.len() as int).len() == 0);
        assert(rs =~= Seq::<Record>::empty());
    } else {
        let e = encode_record(rs[0]);
        let rest = rs.drop_first();
        assert(encode_log(rs) == e + encode_log(rest));
        assert(encode_log(rs).len() == e.len() + encode_log(rest).len());
        assert(e.len() > 0);
        assert(s.subrange(i, i + e.len()) =~= e) by {
            assert(s.subrange(i, i + e.len()) =~= s.subrange(i, s.len() as int).subrange(0, e.len() as int));
        }
        assert(record_wf(rs[0]));
        lemma_parse_encoded(s, i, rs[0]);
        assert(s.subrange(i + e.len(), s.len() as int) =~= encode_log(rest)) by {
            assert(s.subrange(i + e.len(), s.len() as int) =~= s.subrange(i, s.len() as int).subrange(
                e.len() as int,
                s.len() - i,
            ));
        }
        assert forall|k: int| 0 <= k < rest.len() implies record_wf(#[trigger] rest[k]) by {
            assert(rest[k] == rs[k + 1]);
        }
        lemma_decode_suffix(s, i + e.len(), rest);
        assert(seq![rs[0]] + rest =~= rs);
        assert(i < s.len());
        assert(parse_record(s, i) == Ok::<(Record, int), ReadError>((rs[0], i + e.len())));
        assert(decode_from(s, i + e.len()) == Ok::<Seq<Record>, ReadError>(rest));
    }
}

/// Reading back what was written gives the records that were written, for
/// any path bytes (delimiters, newlines and non-UTF-8 included), wherever each
/// deletion carries size 0 (the writer puts down 0 for it).
pub proof fn lemma_log_round_trip(rs: Seq<Record>)
    requires
        forall|k: int| 0 <= k < rs.len() ==> record_wf(#[trigger] rs[k]),
    ensures
        decode_log(encode_log(rs)) == Ok::<Seq<Record>, ReadError>(rs),
{
    let s = encode_log(rs);
    assert(s.subrange(0, s.len() as int) =~= s);
    lemma_decode_suffix(s, 0, rs);
}

/// Appending a record to a log appends its text.
pub proof fn lemma_encode_push(rs: Seq<Record>, r: Record)
    ensures
        encode_log(rs.push(r)) == encode_log(rs) + encode_record(r),
    decreases rs.len(),
{
    if rs.len() == 0 {
        assert(rs.push(r).drop_first() =~= Seq::<Record>::empty());
        assert(rs.push(r)[0] == r);
        assert(encode_log(Seq::<Record>::empty()) == Seq::<u8>::empty());
        assert(encode_log(rs) == Seq::<u8>::empty());
        assert(encode_log(rs.push(r)) =~= encode_record(r));
    } else {
        lemma_encode_push(rs.drop_first(), r);
        assert(rs.push(r).drop_first() =~= rs.drop_first().push(r));
        assert(encode_log(rs.push(r)) =~= encode_log(rs) + encode_record(r));
    }
}


/// Reading a record moves past it.
pub proof fn lemma_parse_advances(s: Seq<u8>, i: int)
    ensures
        parse_record(s, i) matches Ok((r, j)) ==> i < j <= s.len(),
{
    lemma_field_advances(s, i, 10, DELIMITER);
    if let Ok((of, i1)) = field_at(s, i, 10, DELIMITER) {
        lemma_field_advances(s, i1, 30, DELIMITER);
        if let Ok((hf, i2)) = field_at(s, i1, 30, DELIMITER) {
            lemma_field_advances(s, i2, 30, DELIMITER);
            if let Ok((mf, i3)) = field_at(s, i2, 30, DELIMITER) {
                lemma_field_advances(s, i3, 30, DELIMITER);
                if let Ok((sf, i4)) = field_at(s, i3, 30, DELIMITER) {
                    lemma_field_advances(s, i4, 30, DELIMITER);
                }
            }
        }
    }
}

/// The next record that names a file present in the snapshot (a write or a
/// link), with the index past it; deletions are passed over. After an error
/// nothing is left.
pub open spec fn next_file(s: Seq<u8>, i: int) -> Option<(Result<FileRecord, ReadError>, int)>
    decreases s.len() - i,
{
    if i < 0 || i >= s.len() {
        None
    } else {
        match parse_record(s, i) {
            Err(e) => Some((Err(e), s.len() as int)),
            Ok((Record::Write(f), j)) => Some((Ok(f), j)),
            Ok((Record::Link(f), j)) => Some((Ok(f), j)),
            Ok((Record::Delete { .. }, j)) => if i < j {
                next_file(s, j)
            } else {
                None
            },
        }
    }
}

/// The next record of a file written with fresh content, with the index past
/// it; links and deletions are passed over.
pub open spec fn next_new_file(s: Seq<u8>, i: int) -> Option<(Result<FileRecord, ReadError>, int)>
    decreases s.len() - i,
{
    if i < 0 || i >= s.len() {
        None
    } else {
        match parse_record(s, i) {
            Err(e) => Some((Err(e), s.len() as int)),
            Ok((Record::Write(f), j)) => Some((Ok(f), j)),
            Ok((_, j)) => if i < j {
                next_new_file(s, j)
            } else {
                None
            },
        }
    }
}

/// All files present in the snapshot, from index `i` on, or the first error.
pub open spec fn files_from(s: Seq<u8>, i: int) -> Result<Seq<FileRecord>, ReadError>
    decreases s.len() - i,
{
    match next_file(s, i) {
        None => Ok(Seq::empty()),
        Some((Err(e), _)) => Err(e),
        Some((Ok(f), j)) => if i < j && j <= s.len() && i < s.len() {
            match files_from(s, j) {
                Ok(rest) => Ok(seq![f] + rest),
                Err(e) => Err(e),
            }
        } else {
            Err(ReadError::InvalidData)
        },
    }
}

proof fn lemma_next_file_advances(s: Seq<u8>, i: int)
    ensures
        next_file(s, i) matches Some((_, j)) ==> i < j <= s.len(),
        next_file(s, i) is Some ==> 0 <= i < s.len(),
    decreases s.len() - i,
{
    if 0 <= i < s.len() {
        lemma_parse_advances(s, i);
        if let Ok((Record::Delete { .. }, j)) = parse_record(s, i) {
            lemma_next_file_advances(s, j);
        }
    }
}

proof fn lemma_next_new_file_advances(s: Seq<u8>, i: int)
    ensures
        next_new_file(s, i) matches Some((_, j)) ==> i < j <= s.len(),
    decreases s.len() - i,
{
    if 0 <= i < s.len() {
        lemma_parse_advances(s, i);
        match parse_record(s, i) {
            Ok((Record::Write(_), _)) => {},
            Ok((_, j)) => lemma_next_new_file_advances(s, j),
            Err(_) => {},
        }
    }
}

/// The text of one backup log.
pub struct BackupLog {
    contents: Vec<u8>,
}

impl View for BackupLog {
    type V = Seq<u8>;

    closed spec fn view(&self) -> Seq<u8> {
        self.contents@
    }
}

impl BackupLog {
    pub fn create(contents: Vec<u8>) -> (r: BackupLog)
        ensures
            r@ == contents@,
    {
        BackupLog { contents }
    }

    /// Reads the log from its first record.
    pub fn iter(&self) -> (r: BackupLogIterator)
        ensures
            r@ == (self@, 0nat),
    {
        BackupLogIterator::new(copy_range(&self.contents, 0, self.contents.len()))
    }
}

/// Reads every record of a log, in order.
pub struct BackupLogIterator {
    pub reader: HybridFileParser,
}

impl View for BackupLogIterator {
    /// The log text and the index of the next record.
    type V = (Seq<u8>, nat);

    open spec fn view(&self) -> (Seq<u8>, nat) {
        self.reader@
    }
}

impl BackupLogIterator {
    pub fn new(contents: Vec<u8>) -> (r: BackupLogIterator)
        ensures
            r@ == (contents@, 0nat),
    {
        BackupLogIterator { reader: HybridFileParser::new(contents) }
    }

    /// A log with no record.
    pub fn empty() -> (r: BackupLogIterator)
        ensures
            r@ == (Seq::<u8>::empty(), 0nat),
    {
        BackupLogIterator::new(Vec::new())
    }

    /// Reads the record at the current position; after an error nothing is left.
    pub fn parse_item(&mut self) -> (r: Result<LogEntry, ReadError>)
        ensures
            final(self)@.0 == old(self)@.0,
            match parse_record(old(self)@.0, old(self)@.1 as int) {
                Ok((rec, j)) => r matches Ok(e) && e@ == rec && final(self)@.1 == j,
                Err(err) => r == Err::<LogEntry, ReadError>(err) && final(self)@.1 == old(self)@.0.len(),
            },
    {
        let opf = self.reader.read_until_limited(10, DELIMITER)?;
        if !(opf.len() == 1 && (opf[0] == OP_WRITE || opf[0] == OP_LINK || opf[0] == OP_DELETE)) {
            self.reader.skip_to_end();
            return Err(ReadError::InvalidData);
        }
        let op = opf[0];
        assert(op_code(opf@) == Some(op));
        let hash = match self.reader.read_hex_u64(DELIMITER) {
            Ok(v) => v,
            Err(e) => {
                self.reader.skip_to_end();
                return Err(e);
            },
        };
        let mtime = match self.reader.read_i64(DELIMITER) {
            Ok(v) => v,
            Err(e) => {
                self.reader.skip_to_end();
                return Err(e);
            },
        };
        let size = match self.reader.read_u64(DELIMITER) {
            Ok(v) => v,
            Err(e) => {
                self.reader.skip_to_end();
                return Err(e);
            },
        };
        let plen = match self.reader.read_u64(DELIMITER) {
            Ok(v) => v,
            Err(e) => {
                self.reader.skip_to_end();
                return Err(e);
            },
        };
        if plen > self.reader.remaining() as u64 {
            self.reader.skip_to_end();
            return Err(ReadError::UnexpectedEof);
        }
        let path = self.reader.read_path(plen as usize)?;
        if self.reader.remaining() > 0 {
            let _ = self.reader.skip_bytes(1);
        }
        let path = BackupLogPath::new(path);
        if op == OP_WRITE {
            Ok(LogEntry::Write(BackupFileStats { path, xxh3: hash, mtime, size }))
        } else if op == OP_LINK {
            Ok(LogEntry::Link(BackupFileStats { path, xxh3: hash, mtime, size }))
        } else {
            Ok(LogEntry::Delete(DeleteData { path, size }))
        }
    }

    /// The next record, or `None` at the end of the log.
    pub fn next(&mut self) -> (r: Option<Result<LogEntry, ReadError>>)
        ensures
            final(self)@.0 == old(self)@.0,
            old(self)@.1 >= old(self)@.0.len() ==> r is None && final(self)@ == old(self)@,
            old(self)@.1 < old(self)@.0.len() ==> match parse_record(old(self)@.0, old(self)@.1 as int) {
                Ok((rec, j)) => r matches Some(Ok(e)) && e@ == rec && final(self)@.1 == j,
                Err(err) => r == Some(Err::<LogEntry, ReadError>(err)) && final(self)@.1
                    == old(self)@.0.len(),
            },
    {
        if self.reader.is_depleted() {
            return None;
        }
        Some(self.parse_item())
    }
}

/// Reads the records of files present in a snapshot: writes and links.
pub struct AllFilesLogIterator {
    pub inner: BackupLogIterator,
}

impl View for AllFilesLogIterator {
    type V = (Seq<u8>, nat);

    open spec fn view(&self) -> (Seq<u8>, nat) {
        self.inner@
    }
}

impl AllFilesLogIterator {
    pub fn new(inner: BackupLogIterator) -> (r: AllFilesLogIterator)
        ensures
            r@ == inner@,
    {
        AllFilesLogIterator { inner }
    }

    /// The next write or link record, passing over deletions.
    #[verifier::loop_isolation(false)]
    pub fn next(&mut self) -> (r: Option<Result<BackupFileStats, ReadError>>)
        ensures
            final(self)@.0 == old(self)@.0,
            match next_file(old(self)@.0, old(self)@.1 as int) {
                None => r is None && final(self)@.1 >= final(self)@.0.len(),
                Some((Ok(f), j)) => r matches Some(Ok(v)) && v@ == f && final(self)@.1 == j,
                Some((Err(e), j)) => r == Some(Err::<BackupFileStats, ReadError>(e)) && final(self)@.1
                    == j,
            },
    {
        let ghost s = old(self)@.0;
        loop
            invariant
                self@.0 == s,
                next_file(s, old(self)@.1 as int) == next_file(s, self@.1 as int),
            decreases s.len() - self@.1,
        {
            let ghost i: int = self@.1 as int;
            proof {
                lemma_parse_advances(s, i);
            }
            match self.inner.next() {
                None => return None,
                Some(Err(e)) => return Some(Err(e)),
                Some(Ok(LogEntry::Write(f))) => return Some(Ok(f)),
                Some(Ok(LogEntry::Link(f))) => return Some(Ok(f)),
                Some(Ok(LogEntry::Delete(_))) => {},
            }
        }
    }
}

/// Reads the records of files written with fresh content.
pub struct NewFilesLogIterator {
    pub inner: BackupLogIterator,
}

impl View for NewFilesLogIterator {
    type V = (Seq<u8>, nat);

    open spec fn view(&self) -> (Seq<u8>, nat) {
        self.inner@
    }
}

impl NewFilesLogIterator {
    pub fn from(inner: BackupLogIterator) -> (r: NewFilesLogIterator)
        ensures
            r@ == inner@,
    {
        NewFilesLogIterator { inner }
    }

    /// The next write record, passing over links and deletions.
    #[verifier::loop_isolation(false)]
    pub fn next(&mut self) -> (r: Option<Result<BackupFileStats, ReadError>>)
        ensures
            final(self)@.0 == old(self)@.0,
            match next_new_file(old(self)@.0, old(self)@.1 as int) {
                None => r is None && final(self)@.1 >= final(self)@.0.len(),
                Some((Ok(f), j)) => r matches Some(Ok(v)) && v@ == f && final(self)@.1 == j,
                Some((Err(e), j)) => r == Some(Err::<BackupFileStats, ReadError>(e)) && final(self)@.1
                    == j,
            },
    {
        let ghost s = old(self)@.0;
        loop
            invariant
                self@.0 == s,
                next_new_file(s, old(self)@.1 as int) == next_new_file(s, self@.1 as int),
            decreases s.len() - self@.1,
        {
            let ghost i: int = self@.1 as int;
            proof {
                lemma_parse_advances(s, i);
            }
            match self.inner.next() {
                None => return None,
                Some(Err(e)) => return Some(Err(e)),
                Some(Ok(LogEntry::Write(f))) => return Some(Ok(f)),
                Some(Ok(_)) => {},
            }
        }
    }
}

/// The values of a sequence of file records.
pub open spec fn file_views(v: Seq<BackupFileStats>) -> Seq<FileRecord> {
    v.map_values(|f: BackupFileStats| f@)
}

/// Every file present in the snapshot that the log describes, in log order.
pub fn collect_files(log: &BackupLog) -> (r: Result<Vec<BackupFileStats>, ReadError>)
    ensures
        match files_from(log@, 0) {
            Ok(fs) => r matches Ok(v) && file_views(v@) == fs,
            Err(e) => r == Err::<Vec<BackupFileStats>, ReadError>(e),
        },
{
    let ghost s = log@;
    let mut it = AllFilesLogIterator::new(log.iter());
    let mut out: Vec<BackupFileStats> = Vec::new();
    loop
        invariant
            s == log@,
            it@.0 == s,
            match files_from(s, 0) {
                Ok(fs) => files_from(s, it@.1 as int) matches Ok(rest) && fs == file_views(out@) + rest,
                Err(e) => files_from(s, it@.1 as int) == Err::<Seq<FileRecord>, ReadError>(e),
            },
        decreases s.len() - it@.1,
    {
        let ghost i: int = it@.1 as int;
        proof {
            lemma_next_file_advances(s, i);
        }
        match it.next() {
            None => {
                proof {
                    assert(files_from(s, i) == Ok::<Seq<FileRecord>, ReadError>(Seq::empty()));
                    assert(file_views(out@) + Seq::<FileRecord>::empty()
                        =~= file_views(out@));
                }
                return Ok(out);
            },
            Some(Err(e)) => {
                assert(files_from(s, i) == Err::<Seq<FileRecord>, ReadError>(e));
                return Err(e);
            },
            Some(Ok(f)) => {
                let ghost old_out = out@;
                out.push(f);
                proof {
                    assert(file_views(out@) =~= file_views(old_out).push(f@));
                    if let Ok(rest) = files_from(s, it@.1 as int) {
                        assert(seq![f@] + rest =~= seq![f@] + rest);
                        assert(file_views(old_out) + (seq![f@] + rest)
                            =~= file_views(out@) + rest);
                    }
                }
            },
        }
    }
}


/// The values of a sequence of log entries.
pub open spec fn entry_views(v: Seq<LogEntry>) -> Seq<Record> {
    v.map_values(|e: LogEntry| e@)
}

/// Every record of the log, in order, or the first error.
pub fn decode_all(log: &BackupLog) -> (r: Result<Vec<LogEntry>, ReadError>)
    ensures
        match decode_log(log@) {
            Ok(rs) => r matches Ok(v) && entry_views(v@) == rs,
            Err(e) => r == Err::<Vec<LogEntry>, ReadError>(e),
        },
{
    let ghost s = log@;
    let mut it = log.iter();
    let mut out: Vec<LogEntry> = Vec::new();
    loop
        invariant
            s == log@,
            it@.0 == s,
            match decode_from(s, 0) {
                Ok(rs) => decode_from(s, it@.1 as int) matches Ok(rest) && rs == entry_views(out@) + rest,
                Err(e) => decode_from(s, it@.1 as int) == Err::<Seq<Record>, ReadError>(e),
            },
        decreases s.len() - it@.1,
    {
        let ghost i: int = it@.1 as int;
        proof {
            lemma_parse_advances(s, i);
        }
        match it.next() {
            None => {
                proof {
                    assert(entry_views(out@) + Seq::<Record>::empty() =~= entry_views(out@));
                }
                return Ok(out);
            },
            Some(Err(e)) => {
                return Err(e);
            },
            Some(Ok(e)) => {
                let ghost old_out = out@;
                out.push(e);
                proof {
                    assert(entry_views(out@) =~= entry_views(old_out).push(e@));
                    if let Ok(rest) = decode_from(s, it@.1 as int) {
                        assert(entry_views(old_out) + (seq![e@] + rest) =~= entry_views(out@) + rest);
                    }
                }
            },
        }
    }
}

} // verus!
