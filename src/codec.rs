//! Number fields of the backup log: their text, and parsing it back.
use vstd::prelude::*;

verus! {

/// How reading a log can fail.
#[derive(Debug, Clone, Copy, PartialEq, Eq, Structural)]
pub enum ReadError {
    /// A field is malformed, too long, or names an unknown operation.
    InvalidData,
    /// The data ended before a delimiter or before the announced path bytes.
    UnexpectedEof,
    /// A seek would move before the start of the data or past the addressable range.
    InvalidInput,
}

/// Separates the fields of a record.
pub const DELIMITER: u8 = 59;

/// Ends a record.
pub const NEWLINE: u8 = 10;

/// Bytes that `trim` removes: space, tab, line feed, form feed, carriage return.
pub open spec fn is_ascii_ws(b: u8) -> bool {
    b == 32 || b == 9 || b == 10 || b == 12 || b == 13
}

pub open spec fn trim_start(s: Seq<u8>) -> Seq<u8>
    decreases s.len(),
{
    if s.len() > 0 && is_ascii_ws(s[0]) {
        trim_start(s.drop_first())
    } else {
        s
    }
}

pub open spec fn trim_end(s: Seq<u8>) -> Seq<u8>
    decreases s.len(),
{
    if s.len() > 0 && is_ascii_ws(s.last()) {
        trim_end(s.drop_last())
    } else {
        s
    }
}

/// The field without the ASCII whitespace around it.
pub open spec fn trim(s: Seq<u8>) -> Seq<u8> {
    trim_end(trim_start(s))
}

/// The value of one digit in base 10 or 16 (either case), if `b` is one.
pub open spec fn digit_value(b: u8, base: nat) -> Option<nat> {
    if 48 <= b <= 57 {
        Some((b - 48) as nat)
    } else if base == 16 && 97 <= b <= 102 {
        Some((b - 87) as nat)
    } else if base == 16 && 65 <= b <= 70 {
        Some((b - 55) as nat)
    } else {
        None
    }
}

pub open spec fn all_digits(s: Seq<u8>, base: nat) -> bool {
    forall|i: int| 0 <= i < s.len() ==> (#[trigger] digit_value(s[i], base)).is_some()
}

/// The number that a string of digits spells, most significant first.
pub open spec fn digits_value(s: Seq<u8>, base: nat) -> nat
    decreases s.len(),
{
    if s.len() == 0 {
        0
    } else {
        digits_value(s.drop_last(), base) * base + digit_value(s.last(), base).unwrap_or(0)
    }
}

/// The magnitude spelled by a field: whitespace around it, an optional `+`,
/// then at least one digit.
pub open spec fn parse_magnitude(field: Seq<u8>, base: nat) -> Option<nat> {
    let t = trim(field);
    let body = if t.len() > 0 && t[0] == 43 { t.drop_first() } else { t };
    if body.len() > 0 && all_digits(body, base) {
        Some(digits_value(body, base))
    } else {
        None
    }
}

/// An unsigned field, in base 10 or 16, that fits in 64 bits.
pub open spec fn parse_unsigned(field: Seq<u8>, base: nat) -> Option<u64> {
    match parse_magnitude(field, base) {
        Some(v) => if v <= u64::MAX { Some(v as u64) } else { None },
        None => None,
    }
}

/// A signed decimal field: whitespace around it, an optional `+` or `-`, then
/// at least one digit, within the range of `i64`.
pub open spec fn parse_signed(field: Seq<u8>) -> Option<i64> {
    let t = trim(field);
    if t.len() > 0 && t[0] == 45 {
        let body = t.drop_first();
        if body.len() > 0 && all_digits(body, 10) && digits_value(body, 10) <= 0x8000_0000_0000_0000 {
            Some((0 - digits_value(body, 10)) as i64)
        } else {
            None
        }
    } else {
        match parse_magnitude(field, 10) {
            Some(v) => if v <= i64::MAX { Some(v as i64) } else { None },
            None => None,
        }
    }
}

/// The decimal digits of `n`, without leading zeros.
pub open spec fn dec_digits(n: nat) -> Seq<u8>
    decreases n,
{
    if n < 10 {
        seq![(48 + n) as u8]
    } else {
        dec_digits(n / 10).push((48 + n % 10) as u8)
    }
}

pub open spec fn hex_char(d: nat) -> u8 {
    if d < 10 {
        (48 + d) as u8
    } else {
        (87 + d) as u8
    }
}

/// The lowercase hexadecimal digits of `n`, without leading zeros.
pub open spec fn hex_digits(n: nat) -> Seq<u8>
    decreases n,
{
    if n < 16 {
        seq![hex_char(n)]
    } else {
        hex_digits(n / 16).push(hex_char(n % 16))
    }
}

/// The signed decimal text of `v`: a `-` before the digits of a negative value.
pub open spec fn signed_digits(v: int) -> Seq<u8> {
    if v < 0 {
        seq![45u8] + dec_digits((0 - v) as nat)
    } else {
        dec_digits(v as nat)
    }
}

/// Appends the decimal digits of `n`.
pub fn push_dec(out: &mut Vec<u8>, n: u64)
    ensures
        final(out)@ == old(out)@ + dec_digits(n as nat),
    decreases n,
{
    if n >= 10 {
        push_dec(out, n / 10);
    }
    out.push((48 + n % 10) as u8);
    proof {
        assert(final(out)@ =~= old(out)@ + dec_digits(n as nat));
    }
}

/// Appends the lowercase hexadecimal digits of `n`.
pub fn push_hex(out: &mut Vec<u8>, n: u64)
    ensures
        final(out)@ == old(out)@ + hex_digits(n as nat),
    decreases n,
{
    if n >= 16 {
        push_hex(out, n / 16);
    }
    let d = n % 16;
    let c: u8 = if d < 10 { (48 + d) as u8 } else { (87 + d) as u8 };
    out.push(c);
    proof {
        assert(final(out)@ =~= old(out)@ + hex_digits(n as nat));
    }
}

/// Appends the signed decimal text of `v`.
pub fn push_signed(out: &mut Vec<u8>, v: i64)
    ensures
        final(out)@ == old(out)@ + signed_digits(v as int),
{
    if v < 0 {
        out.push(45);
        let mag: u64 = if v == i64::MIN { 0x8000_0000_0000_0000u64 } else { (0 - v) as u64 };
        push_dec(out, mag);
        proof {
            assert(final(out)@ =~= old(out)@ + signed_digits(v as int));
        }
    } else {
        push_dec(out, v as u64);
    }
}


proof fn lemma_digits_step(s: Seq<u8>, k: int, base: nat)
    requires
        0 <= k < s.len(),
    ensures
        digits_value(s.subrange(0, k + 1), base) == digits_value(s.subrange(0, k), base) * base
            + digit_value(s[k], base).unwrap_or(0),
{
    assert(s.subrange(0, k + 1).drop_last() =~= s.subrange(0, k));
}

proof fn lemma_digits_monotone(s: Seq<u8>, k: int, base: nat)
    requires
        base >= 1,
        0 <= k <= s.len(),
    ensures
        digits_value(s.subrange(0, k), base) <= digits_value(s, base),
    decreases s.len(),
{
    if k == s.len() {
        assert(s.subrange(0, k) =~= s);
    } else {
        let t = s.drop_last();
        lemma_digits_monotone(t, k, base);
        assert(t.subrange(0, k) =~= s.subrange(0, k));
        let x = digits_value(t, base);
        let d = digit_value(s.last(), base).unwrap_or(0);
        assert(x * base + d >= x) by (nonlinear_arith)
            requires
                base >= 1,
                d >= 0,
                x >= 0,
        ;
    }
}

/// The value of the digits `s[b..e]` in `base`, if each is a digit and the
/// value fits in 64 bits.
fn digits_to_u64(s: &Vec<u8>, b: usize, e: usize, base: u64) -> (r: Option<u64>)
    requires
        b <= e <= s.len(),
        base == 10 || base == 16,
    ensures
        r == (if all_digits(s@.subrange(b as int, e as int), base as nat) && digits_value(
            s@.subrange(b as int, e as int),
            base as nat,
        ) <= u64::MAX {
            Some(digits_value(s@.subrange(b as int, e as int), base as nat) as u64)
        } else {
            None::<u64>
        }),
{
    let ghost sub = s@.subrange(b as int, e as int);
    let mut v: u64 = 0;
    let mut i: usize = b;
    while i < e
        invariant
            b <= i <= e <= s.len(),
            sub == s@.subrange(b as int, e as int),
            base == 10 || base == 16,
            all_digits(sub.subrange(0, i - b), base as nat),
            v == digits_value(sub.subrange(0, i - b), base as nat),
        decreases e - i,
    {
        let c = s[i];
        let d: u64 = if 48 <= c && c <= 57 {
            (c - 48) as u64
        } else if base == 16 && 97 <= c && c <= 102 {
            (c - 87) as u64
        } else if base == 16 && 65 <= c && c <= 70 {
            (c - 55) as u64
        } else {
            proof {
                assert(digit_value(sub[i - b], base as nat).is_none());
            }
            return None;
        };
        proof {
            assert(sub[i - b] == c);
            lemma_digits_step(sub, i - b, base as nat);
        }
        let lim = (u64::MAX - d) / base;
        if v > lim {
            proof {
                assert(v * base + d > u64::MAX) by (nonlinear_arith)
                    requires
                        v > lim,
                        lim == (u64::MAX - d) as int / base as int,
                        base > 0,
                        d <= u64::MAX,
                ;
                lemma_digits_monotone(sub, i - b + 1, base as nat);
            }
            return None;
        }
        proof {
            assert(v * base + d <= u64::MAX) by (nonlinear_arith)
                requires
                    v <= lim,
                    lim == (u64::MAX - d) as int / base as int,
                    base > 0,
                    d <= u64::MAX,
            ;
            assert forall|j: int| 0 <= j < i - b + 1 implies (#[trigger] digit_value(
                sub.subrange(0, i - b + 1)[j],
                base as nat,
            )).is_some() by {
                if j < i - b {
                    assert(sub.subrange(0, i - b + 1)[j] == sub.subrange(0, i - b)[j]);
                }
            }
        }
        v = v * base + d;
        i = i + 1;
    }
    proof {
        assert(sub.subrange(0, e - b) =~= sub);
    }
    Some(v)
}

/// The bounds `[b, e)` of `s` once whitespace is trimmed from both ends.
fn trim_bounds(s: &Vec<u8>) -> (r: (usize, usize))
    ensures
        r.0 <= r.1 <= s.len(),
        s@.subrange(r.0 as int, r.1 as int) == trim(s@),
{
    let mut i: usize = 0;
    assert(s@.subrange(0, s.len() as int) =~= s@);
    while i < s.len() && (s[i] == 32 || s[i] == 9 || s[i] == 10 || s[i] == 12 || s[i] == 13)
        invariant
            i <= s.len(),
            trim_start(s@) == trim_start(s@.subrange(i as int, s.len() as int)),
        decreases s.len() - i,
    {
        assert(s@.subrange(i as int, s.len() as int).drop_first() =~= s@.subrange(
            i + 1,
            s.len() as int,
        ));
        i = i + 1;
    }
    let mut j: usize = s.len();
    assert(s@.subrange(i as int, s.len() as int).len() == 0 || !is_ascii_ws(
        s@.subrange(i as int, s.len() as int)[0],
    ));
    while j > i && (s[j - 1] == 32 || s[j - 1] == 9 || s[j - 1] == 10 || s[j - 1] == 12 || s[j
        - 1] == 13)
        invariant
            i <= j <= s.len(),
            trim_start(s@) == s@.subrange(i as int, s.len() as int),
            trim(s@) == trim_end(s@.subrange(i as int, j as int)),
        decreases j,
    {
        assert(s@.subrange(i as int, j as int).drop_last() =~= s@.subrange(i as int, j - 1));
        j = j - 1;
    }
    (i, j)
}

/// Parses an unsigned field in base 10 or 16, as `parse_unsigned` states.
pub fn parse_u64_field(field: &Vec<u8>, base: u64) -> (r: Option<u64>)
    requires
        base == 10 || base == 16,
    ensures
        r == parse_unsigned(field@, base as nat),
{
    let (b, e) = trim_bounds(field);
    let ghost t = trim(field@);
    let start: usize = if b < e && field[b] == 43 { b + 1 } else { b };
    proof {
        if b < e && field[b as int] == 43 {
            assert(t.drop_first() =~= field@.subrange(start as int, e as int));
        }
    }
    if start == e {
        return None;
    }
    digits_to_u64(field, start, e, base)
}

/// Parses a signed decimal field, as `parse_signed` states.
pub fn parse_i64_field(field: &Vec<u8>) -> (r: Option<i64>)
    ensures
        r == parse_signed(field@),
{
    let (b, e) = trim_bounds(field);
    let ghost t = trim(field@);
    if b < e && field[b] == 45 {
        proof {
            assert(t.drop_first() =~= field@.subrange(b + 1, e as int));
        }
        if b + 1 == e {
            return None;
        }
        match digits_to_u64(field, b + 1, e, 10) {
            Some(m) => {
                if m > 0x8000_0000_0000_0000u64 {
                    None
                } else if m == 0x8000_0000_0000_0000u64 {
                    Some(i64::MIN)
                } else {
                    Some((0 - (m as i64)) as i64)
                }
            },
            None => None,
        }
    } else {
        match parse_u64_field(field, 10) {
            Some(m) => if m > i64::MAX as u64 { None } else { Some(m as i64) },
            None => None,
        }
    }
}


/// Every byte of `s` is an ASCII decimal digit.
pub open spec fn dec_bytes(s: Seq<u8>) -> bool {
    forall|k: int| 0 <= k < s.len() ==> 48 <= #[trigger] s[k] <= 57
}

/// Every byte of `s` is a lowercase hexadecimal digit.
pub open spec fn hex_bytes(s: Seq<u8>) -> bool {
    forall|k: int| 0 <= k < s.len() ==> (48 <= #[trigger] s[k] <= 57 || 97 <= s[k] <= 102)
}

pub proof fn lemma_trim_plain(s: Seq<u8>)
    requires
        s.len() > 0,
        !is_ascii_ws(s[0]),
        !is_ascii_ws(s.last()),
    ensures
        trim(s) == s,
{
}

pub proof fn lemma_dec_digits(n: nat)
    ensures
        dec_digits(n).len() >= 1,
        dec_bytes(dec_digits(n)),
        all_digits(dec_digits(n), 10),
        digits_value(dec_digits(n), 10) == n,
        n <= u64::MAX ==> dec_digits(n).len() <= 20,
    decreases n,
{
    if n >= 10 {
        lemma_dec_digits(n / 10);
        let d = dec_digits(n / 10);
        let e = dec_digits(n);
        assert(e.drop_last() =~= d);
        assert forall|k: int| 0 <= k < e.len() implies 48 <= #[trigger] e[k] <= 57 by {
            if k < d.len() {
                assert(e[k] == d[k]);
            }
        }
        assert forall|k: int| 0 <= k < e.len() implies (#[trigger] digit_value(e[k], 10)).is_some() by {
            assert(48 <= e[k] <= 57);
        }
        assert(digit_value(e.last(), 10) == Some(n % 10));
        assert((n / 10) * 10 + n % 10 == n) by (nonlinear_arith);
        assert(digits_value(e, 10) == digits_value(d, 10) * 10 + n % 10);
        if n <= u64::MAX {
            assert(pow10(20) == 100000000000000000000) by {
                reveal_with_fuel(pow10, 21);
            }
            lemma_dec_len(n, 20);
        }
    } else {
        let e = dec_digits(n);
        assert(e.drop_last() =~= Seq::<u8>::empty());
        assert(e.last() == (48 + n) as u8);
        assert(digit_value(e.last(), 10) == Some(n));
        assert(digits_value(e, 10) == digits_value(e.drop_last(), 10) * 10 + n);
    }
}

proof fn lemma_dec_len(n: nat, k: nat)
    requires
        k >= 1,
        n < pow10(k),
    ensures
        dec_digits(n).len() <= k,
    decreases k,
{
    if n >= 10 {
        assert(k >= 2) by {
            if k == 1 {
                assert(pow10(1) == 10) by {
                    reveal_with_fuel(pow10, 2);
                }
            }
        }
        let p = pow10((k - 1) as nat);
        assert(pow10(k) == 10 * p);
        assert(n / 10 < p) by (nonlinear_arith)
            requires
                n < 10 * p,
        ;
        lemma_dec_len(n / 10, (k - 1) as nat);
    }
}

pub open spec fn pow10(k: nat) -> nat
    decreases k,
{
    if k == 0 {
        1
    } else {
        10 * pow10((k - 1) as nat)
    }
}

pub proof fn lemma_hex_digits(n: nat)
    ensures
        hex_digits(n).len() >= 1,
        hex_bytes(hex_digits(n)),
        all_digits(hex_digits(n), 16),
        digits_value(hex_digits(n), 16) == n,
        n <= u64::MAX ==> hex_digits(n).len() <= 16,
    decreases n,
{
    if n >= 16 {
        lemma_hex_digits(n / 16);
        let d = hex_digits(n / 16);
        let e = hex_digits(n);
        assert(e.drop_last() =~= d);
        assert forall|k: int| 0 <= k < e.len() implies (48 <= #[trigger] e[k] <= 57 || 97 <= e[k]
            <= 102) by {
            if k < d.len() {
                assert(e[k] == d[k]);
            }
        }
        assert forall|k: int| 0 <= k < e.len() implies (#[trigger] digit_value(e[k], 16)).is_some() by {
            assert(48 <= e[k] <= 57 || 97 <= e[k] <= 102);
        }
        assert(digit_value(e.last(), 16) == Some(n % 16));
        assert((n / 16) * 16 + n % 16 == n) by (nonlinear_arith);
        assert(digits_value(e, 16) == digits_value(d, 16) * 16 + n % 16);
        if n <= u64::MAX {
            assert(pow16(16) == 0x1_0000_0000_0000_0000) by {
                reveal_with_fuel(pow16, 17);
            }
            lemma_hex_len(n, 16);
        }
    } else {
        let e = hex_digits(n);
        assert(e.drop_last() =~= Seq::<u8>::empty());
        assert(e.last() == hex_char(n));
        assert(digit_value(e.last(), 16) == Some(n));
        assert(digits_value(e, 16) == digits_value(e.drop_last(), 16) * 16 + n);
    }
}

proof fn lemma_hex_len(n: nat, k: nat)
    requires
        k >= 1,
        n < pow16(k),
    ensures
        hex_digits(n).len() <= k,
    decreases k,
{
    if n >= 16 {
        assert(k >= 2) by {
            if k == 1 {
                assert(pow16(1) == 16) by {
                    reveal_with_fuel(pow16, 2);
                }
            }
        }
        let p = pow16((k - 1) as nat);
        assert(pow16(k) == 16 * p);
        assert(n / 16 < p) by (nonlinear_arith)
            requires
                n < 16 * p,
        ;
        lemma_hex_len(n / 16, (k - 1) as nat);
    }
}

pub open spec fn pow16(k: nat) -> nat
    decreases k,
{
    if k == 0 {
        1
    } else {
        16 * pow16((k - 1) as nat)
    }
}

/// Decimal text parses back to the number it was made from.
pub proof fn lemma_parse_dec(n: u64)
    ensures
        parse_unsigned(dec_digits(n as nat), 10) == Some(n),
        dec_digits(n as nat).len() <= 20,
        dec_bytes(dec_digits(n as nat)),
{
    let d = dec_digits(n as nat);
    lemma_dec_digits(n as nat);
    assert(48 <= d[0] <= 57);
    assert(48 <= d[d.len() - 1] <= 57);
    lemma_trim_plain(d);
}

/// Hexadecimal text parses back to the number it was made from.
pub proof fn lemma_parse_hex(n: u64)
    ensures
        parse_unsigned(hex_digits(n as nat), 16) == Some(n),
        hex_digits(n as nat).len() <= 16,
        hex_bytes(hex_digits(n as nat)),
{
    let d = hex_digits(n as nat);
    lemma_hex_digits(n as nat);
    assert(48 <= d[0] <= 57 || 97 <= d[0] <= 102);
    assert(48 <= d[d.len() - 1] <= 57 || 97 <= d[d.len() - 1] <= 102);
    lemma_trim_plain(d);
}

/// Signed decimal text parses back to the number it was made from.
pub proof fn lemma_parse_signed(v: i64)
    ensures
        parse_signed(signed_digits(v as int)) == Some(v),
        signed_digits(v as int).len() <= 21,
        forall|k: int| 0 <= k < signed_digits(v as int).len() ==> #[trigger] signed_digits(v as int)[k] != 59,
{
    let t = signed_digits(v as int);
    if v < 0 {
        let m = (0 - v) as nat;
        let d = dec_digits(m);
        lemma_dec_digits(m);
        assert(pow10(20) == 100000000000000000000) by {
            reveal_with_fuel(pow10, 21);
        }
        lemma_dec_len(m, 20);
        assert(48 <= d[d.len() - 1] <= 57);
        assert(t.last() == d.last());
        lemma_trim_plain(t);
        assert(t.drop_first() =~= d);
        assert forall|k: int| 0 <= k < t.len() implies #[trigger] t[k] != 59 by {
            if k > 0 {
                assert(t[k] == d[k - 1]);
            }
        }
    } else {
        lemma_parse_dec(v as u64);
        lemma_dec_digits(v as nat);
        let d = dec_digits(v as nat);
        assert(48 <= d[0] <= 57);
        lemma_trim_plain(d);
    }
}

} // verus!
