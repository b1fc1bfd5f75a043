//! Reading delimited text fields and raw byte runs from a buffer.
use vstd::prelude::*;

use crate::codec::{parse_i64_field, parse_signed, parse_u64_field, parse_unsigned, ReadError};

verus! {

/// Where the search for a delimiter ends.
pub enum ScanOutcome {
    /// The delimiter stands at this index.
    Found(int),
    /// The field reached its length limit before a delimiter.
    TooLong,
    /// The data ended first.
    Eof,
}

/// Looks for `delim` from index `i`, where at most `limit` other bytes may
/// come before it.
pub open spec fn scan(s: Seq<u8>, i: int, limit: int, delim: u8) -> ScanOutcome
    decreases s.len() - i,
{
    if i < 0 || i >= s.len() {
        ScanOutcome::Eof
    } else if s[i] == delim {
        ScanOutcome::Found(i)
    } else if limit <= 0 {
        ScanOutcome::TooLong
    } else {
        scan(s, i + 1, limit - 1, delim)
    }
}

/// The field that starts at `i` and the index just past its delimiter.
pub open spec fn field_at(s: Seq<u8>, i: int, limit: int, delim: u8) -> Result<
    (Seq<u8>, int),
    ReadError,
> {
    match scan(s, i, limit, delim) {
        ScanOutcome::Found(j) => Ok((s.subrange(i, j), j + 1)),
        ScanOutcome::TooLong => Err(ReadError::InvalidData),
        ScanOutcome::Eof => Err(ReadError::UnexpectedEof),
    }
}

pub proof fn lemma_scan_bounds(s: Seq<u8>, i: int, limit: int, delim: u8)
    ensures
        scan(s, i, limit, delim) matches ScanOutcome::Found(j) ==> 0 <= i <= j < s.len() && s[j]
            == delim,
    decreases s.len() - i,
{
    if 0 <= i < s.len() && s[i] != delim && limit > 0 {
        lemma_scan_bounds(s, i + 1, limit - 1, delim);
    }
}

/// A field that is read ends past its start and within the data.
pub proof fn lemma_field_advances(s: Seq<u8>, i: int, limit: int, delim: u8)
    ensures
        field_at(s, i, limit, delim) matches Ok((f, n)) ==> i < n <= s.len(),
{
    lemma_scan_bounds(s, i, limit, delim);
}

pub proof fn lemma_scan_found(s: Seq<u8>, i: int, limit: int, delim: u8, j: int)
    requires
        0 <= i <= j < s.len(),
        s[j] == delim,
        j - i <= limit,
        forall|k: int| i <= k < j ==> s[k] != delim,
    ensures
        scan(s, i, limit, delim) == ScanOutcome::Found(j),
    decreases j - i,
{
    if i < j {
        lemma_scan_found(s, i + 1, limit - 1, delim, j);
    }
}

/// A copy of `data[b..e]`.
pub fn copy_range(data: &Vec<u8>, b: usize, e: usize) -> (r: Vec<u8>)
    requires
        b <= e <= data.len(),
    ensures
        r@ == data@.subrange(b as int, e as int),
{
    let mut r: Vec<u8> = Vec::with_capacity(e - b);
    let mut i: usize = b;
    while i < e
        invariant
            b <= i <= e <= data.len(),
            r@ == data@.subrange(b as int, i as int),
        decreases e - i,
    {
        r.push(data[i]);
        i = i + 1;
        assert(r@ =~= data@.subrange(b as int, i as int));
    }
    r
}

/// The text that a byte string spells in UTF-8, if it is valid UTF-8.
pub uninterp spec fn utf8_text(b: Seq<u8>) -> Option<Seq<char>>;

/// Relies on `String::from_utf8`: it succeeds exactly on valid UTF-8 and then
/// holds the text those bytes spell.
#[verifier::external_body]
fn string_from_utf8(b: Vec<u8>) -> (r: Option<String>)
    ensures
        r.is_some() == utf8_text(b@).is_some(),
        r.is_some() ==> r.unwrap()@ == utf8_text(b@).unwrap(),
{
    String::from_utf8(b).ok()
}

/// Reads records that mix delimited text fields and raw byte runs.
pub struct HybridFileParser {
    data: Vec<u8>,
    pos: usize,
}

impl View for HybridFileParser {
    /// The data, and the index of the next byte to read (which may lie past the end).
    type V = (Seq<u8>, nat);

    closed spec fn view(&self) -> (Seq<u8>, nat) {
        (self.data@, self.pos as nat)
    }
}

impl HybridFileParser {
    pub fn new(data: Vec<u8>) -> (r: HybridFileParser)
        ensures
            r@ == (data@, 0nat),
    {
        HybridFileParser { data, pos: 0 }
    }

    /// No byte is left to read.
    pub fn is_depleted(&self) -> (r: bool)
        ensures
            r == (self@.1 >= self@.0.len()),
    {
        self.pos >= self.data.len()
    }

    /// Reads up to `delimiter` and consumes it. A field of more than `limit`
    /// bytes is `InvalidData`; data that ends first is `UnexpectedEof`. After an
    /// error nothing is left to read.
    pub fn read_until_limited(&mut self, limit: usize, delimiter: u8) -> (r: Result<Vec<u8>, ReadError>)
        ensures
            final(self)@.0 == old(self)@.0,
            match field_at(old(self)@.0, old(self)@.1 as int, limit as int, delimiter) {
                Ok((f, next)) => r matches Ok(v) && v@ == f && final(self)@.1 == next,
                Err(e) => r == Err::<Vec<u8>, ReadError>(e) && final(self)@.1 == old(self)@.0.len(),
            },
    {
        let ghost s = self.data@;
        if self.pos >= self.data.len() {
            self.pos = self.data.len();
            return Err(ReadError::UnexpectedEof);
        }
        let start = self.pos;
        let mut i: usize = self.pos;
        while i < self.data.len()
            invariant
                s == self.data@,
                s == old(self)@.0,
                start == old(self)@.1,
                start == self.pos,
                start <= i <= self.data.len(),
                scan(s, start as int, limit as int, delimiter) == scan(
                    s,
                    i as int,
                    limit - (i - start),
                    delimiter,
                ),
                i - start <= limit,
            decreases self.data.len() - i,
        {
            if self.data[i] == delimiter {
                let v = copy_range(&self.data, start, i);
                self.pos = i + 1;
                return Ok(v);
            }
            if i - start + 1 > limit {
                self.pos = self.data.len();
                return Err(ReadError::InvalidData);
            }
            i = i + 1;
        }
        self.pos = self.data.len();
        Err(ReadError::UnexpectedEof)
    }

    /// Reads a delimited field that must be valid UTF-8.
    pub fn read_string(&mut self, limit: usize, delimiter: u8) -> (r: Result<String, ReadError>)
        ensures
            final(self)@.0 == old(self)@.0,
            match field_at(old(self)@.0, old(self)@.1 as int, limit as int, delimiter) {
                Ok((f, next)) => final(self)@.1 == next && match utf8_text(f) {
                    Some(t) => r matches Ok(v) && v@ == t,
                    None => r == Err::<String, ReadError>(ReadError::InvalidData),
                },
                Err(e) => r == Err::<String, ReadError>(e) && final(self)@.1 == old(self)@.0.len(),
            },
    {
        let bytes = self.read_until_limited(limit, delimiter)?;
        match string_from_utf8(bytes) {
            Some(t) => Ok(t),
            None => Err(ReadError::InvalidData),
        }
    }

    /// Reads a decimal field of at most 30 bytes.
    pub fn read_u64(&mut self, delimiter: u8) -> (r: Result<u64, ReadError>)
        ensures
            final(self)@.0 == old(self)@.0,
            match field_at(old(self)@.0, old(self)@.1 as int, 30, delimiter) {
                Ok((f, next)) => final(self)@.1 == next && r == match parse_unsigned(f, 10) {
                    Some(v) => Ok::<u64, ReadError>(v),
                    None => Err(ReadError::InvalidData),
                },
                Err(e) => r == Err::<u64, ReadError>(e) && final(self)@.1 == old(self)@.0.len(),
            },
    {
        let field = self.read_until_limited(30, delimiter)?;
        match parse_u64_field(&field, 10) {
            Some(v) => Ok(v),
            None => Err(ReadError::InvalidData),
        }
    }

    /// Reads a signed decimal field of at most 30 bytes.
    pub fn read_i64(&mut self, delimiter: u8) -> (r: Result<i64, ReadError>)
        ensures
            final(self)@.0 == old(self)@.0,
            match field_at(old(self)@.0, old(self)@.1 as int, 30, delimiter) {
                Ok((f, next)) => final(self)@.1 == next && r == match parse_signed(f) {
                    Some(v) => Ok::<i64, ReadError>(v),
                    None => Err(ReadError::InvalidData),
                },
                Err(e) => r == Err::<i64, ReadError>(e) && final(self)@.1 == old(self)@.0.len(),
            },
    {
        let field = self.read_until_limited(30, delimiter)?;
        match parse_i64_field(&field) {
            Some(v) => Ok(v),
            None => Err(ReadError::InvalidData),
        }
    }

    /// Reads a hexadecimal field of at most 30 bytes.
    pub fn read_hex_u64(&mut self, delimiter: u8) -> (r: Result<u64, ReadError>)
        ensures
            final(self)@.0 == old(self)@.0,
            match field_at(old(self)@.0, old(self)@.1 as int, 30, delimiter) {
                Ok((f, next)) => final(self)@.1 == next && r == match parse_unsigned(f, 16) {
                    Some(v) => Ok::<u64, ReadError>(v),
                    None => Err(ReadError::InvalidData),
                },
                Err(e) => r == Err::<u64, ReadError>(e) && final(self)@.1 == old(self)@.0.len(),
            },
    {
        let field = self.read_until_limited(30, delimiter)?;
        match parse_u64_field(&field, 16) {
            Some(v) => Ok(v),
            None => Err(ReadError::InvalidData),
        }
    }

    /// Reads exactly `num_exact_bytes` raw bytes; fewer left is `UnexpectedEof`.
    pub fn read_path(&mut self, num_exact_bytes: usize) -> (r: Result<Vec<u8>, ReadError>)
        ensures
            final(self)@.0 == old(self)@.0,
            if old(self)@.1 + num_exact_bytes <= old(self)@.0.len() {
                r matches Ok(v) && v@ == old(self)@.0.subrange(
                    old(self)@.1 as int,
                    old(self)@.1 + num_exact_bytes,
                ) && final(self)@.1 == old(self)@.1 + num_exact_bytes
            } else {
                r == Err::<Vec<u8>, ReadError>(ReadError::UnexpectedEof) && final(self)@.1
                    == old(self)@.0.len()
            },
    {
        if self.pos > self.data.len() || self.data.len() - self.pos < num_exact_bytes {
            self.pos = self.data.len();
            return Err(ReadError::UnexpectedEof);
        }
        let v = copy_range(&self.data, self.pos, self.pos + num_exact_bytes);
        self.pos = self.pos + num_exact_bytes;
        Ok(v)
    }

    /// How many bytes are left to read.
    pub fn remaining(&self) -> (r: usize)
        ensures
            r == if self@.1 < self@.0.len() { self@.0.len() - self@.1 } else { 0 },
            self@.0.len() <= usize::MAX,
    {
        if self.pos < self.data.len() {
            self.data.len() - self.pos
        } else {
            0
        }
    }

    /// Moves the read position to the end of the data.
    pub fn skip_to_end(&mut self)
        ensures
            final(self)@ == (old(self)@.0, old(self)@.0.len()),
    {
        self.pos = self.data.len();
    }

    /// Moves the read position by `num` bytes, possibly past the end. A move
    /// before the start, or beyond the addressable range, is `InvalidInput`
    /// and leaves the position as it was.
    pub fn skip_bytes(&mut self, num: i64) -> (r: Result<(), ReadError>)
        ensures
            final(self)@.0 == old(self)@.0,
            if 0 <= old(self)@.1 + num <= usize::MAX {
                r is Ok && final(self)@.1 == old(self)@.1 + num
            } else {
                r == Err::<(), ReadError>(ReadError::InvalidInput) && final(self)@.1 == old(self)@.1
            },
    {
        if num < 0 {
            let back: u64 = if num == i64::MIN { 0x8000_0000_0000_0000u64 } else { (0 - num) as u64 };
            if (self.pos as u64) < back {
                return Err(ReadError::InvalidInput);
            }
            self.pos = self.pos - back as usize;
        } else {
            if usize::MAX - self.pos < num as u64 as usize || num as u64 > usize::MAX as u64 {
                return Err(ReadError::InvalidInput);
            }
            self.pos = self.pos + num as usize;
        }
        Ok(())
    }
}

} // verus!
