//! Parsing of one range file: newline-separated `suffix:count` lines.

use vstd::prelude::*;
use crate::path_codec::{key_bytes, Hash5};

verus! {

/// One record of a shard: the full hash (key followed by the line's suffix)
/// and how often it occurred.
pub struct Password {
    pub hash: Vec<u8>,
    pub count: usize,
}

/// A record as a mathematical value.
pub type RecordView = (Seq<u8>, usize);

impl View for Password {
    type V = RecordView;

    open spec fn view(&self) -> RecordView {
        (self.hash@, self.count)
    }
}

/// Why a range file was rejected; `index` counts lines from zero.
#[derive(Debug, Clone, Copy, PartialEq, Eq)]
pub enum RangeFileError {
    /// The line holds no `:`.
    MissingSeparator { index: usize },
    /// The text after the first `:` is not a count that fits in `usize`.
    InvalidCount { index: usize },
}

pub open spec fn is_digit(b: u8) -> bool {
    48 <= b && b <= 57
}

/// Position of the first `b` in `s[from..to)`, or `to` when there is none.
pub open spec fn find_byte(s: Seq<u8>, b: u8, from: int, to: int) -> int
    decreases to - from,
{
    if from >= to {
        to
    } else if s[from] == b {
        from
    } else {
        find_byte(s, b, from + 1, to)
    }
}

/// The value of a string of decimal digits.
pub open spec fn digits_value(d: Seq<u8>) -> nat
    decreases d.len(),
{
    if d.len() == 0 {
        0
    } else {
        digits_value(d.drop_last()) * 10 + (d.last() - 48) as nat
    }
}

/// The digits of a count: its text without a leading `+`.
pub open spec fn count_digits(t: Seq<u8>) -> Seq<u8> {
    if t.len() > 0 && t[0] == 43 {
        t.drop_first()
    } else {
        t
    }
}

/// A count: an optional `+`, then one or more decimal digits, with a value
/// that fits in `usize`.
pub open spec fn count_value(t: Seq<u8>) -> Option<usize> {
    let d = count_digits(t);
    if d.len() > 0 && (forall|i: int| 0 <= i < d.len() ==> is_digit(#[trigger] d[i]))
        && digits_value(d) <= usize::MAX {
        Some(digits_value(d) as usize)
    } else {
        None
    }
}

/// End of the line that starts at `start` and whose terminator (or the end
/// of input) is at `e`: a `\r` before a `\n` is not part of the line.
pub open spec fn line_end(s: Seq<u8>, start: int, e: int) -> int {
    if e < s.len() && e > start && s[e - 1] == 13 {
        e - 1
    } else {
        e
    }
}

proof fn lemma_find_byte_bounds(s: Seq<u8>, b: u8, from: int, to: int)
    requires
        from <= to,
    ensures
        from <= find_byte(s, b, from, to) <= to,
    decreases to - from,
{
    if from < to && s[from] != b {
        lemma_find_byte_bounds(s, b, from + 1, to);
    }
}

/// The records of the lines of `s` from byte `start` on, the first of them
/// being line `index`; or the fault of the first line that is malformed.
pub open spec fn parse_lines(key: Seq<u8>, s: Seq<u8>, start: int, index: int) -> Result<
    Seq<RecordView>,
    RangeFileError,
>
    decreases s.len() + 1 - start,
    via parse_lines_decreases
{
    if start < 0 || start >= s.len() {
        Ok(Seq::empty())
    } else {
        let e = find_byte(s, 10, start, s.len() as int);
        let le = line_end(s, start, e);
        let c = find_byte(s, 58, start, le);
        if c == le {
            Err(RangeFileError::MissingSeparator { index: index as usize })
        } else {
            match count_value(s.subrange(c + 1, le)) {
                None => Err(RangeFileError::InvalidCount { index: index as usize }),
                Some(n) => match parse_lines(key, s, e + 1, index + 1) {
                    Ok(rest) => Ok(seq![(key + s.subrange(start, c), n)] + rest),
                    Err(x) => Err(x),
                },
            }
        }
    }
}

#[via_fn]
proof fn parse_lines_decreases(key: Seq<u8>, s: Seq<u8>, start: int, index: int) {
    if 0 <= start < s.len() {
        lemma_find_byte_bounds(s, 10, start, s.len() as int);
    }
}

/// The records of a whole range file.
pub open spec fn parse_range(key: Seq<u8>, s: Seq<u8>) -> Result<Seq<RecordView>, RangeFileError> {
    parse_lines(key, s, 0, 0)
}

fn find_byte_in(s: &[u8], b: u8, from: usize, to: usize) -> (r: usize)
    requires
        from <= to <= s@.len(),
    ensures
        r == find_byte(s@, b, from as int, to as int),
{
    let mut i = from;
    while i < to
        invariant
            from <= i <= to <= s@.len(),
            find_byte(s@, b, from as int, to as int) == find_byte(s@, b, i as int, to as int),
        decreases to - i,
    {
        if s[i] == b {
            return i;
        }
        i = i + 1;
    }
    i
}

proof fn lemma_digits_value_monotone(d: Seq<u8>, k: int)
    requires
        0 <= k <= d.len(),
    ensures
        digits_value(d.subrange(0, k)) <= digits_value(d),
    decreases d.len() - k,
{
    if k < d.len() {
        let a = d.subrange(0, k);
        let b = d.subrange(0, k + 1);
        assert(b.drop_last() =~= a);
        lemma_digits_value_monotone(d, k + 1);
    } else {
        assert(d.subrange(0, k) =~= d);
    }
}

/// Reads the count held in `s[from..to)`.
fn parse_count(s: &[u8], from: usize, to: usize) -> (r: Option<usize>)
    requires
        from <= to <= s@.len(),
    ensures
        r == count_value(s@.subrange(from as int, to as int)),
{
    let ghost t = s@.subrange(from as int, to as int);
    let mut lo = from;
    if from < to && s[from] == 43 {
        lo = from + 1;
    }
    let ghost d = s@.subrange(lo as int, to as int);
    assert(d =~= count_digits(t));
    if lo == to {
        return None;
    }
    let mut i = lo;
    while i < to
        invariant
            lo <= i <= to <= s@.len(),
            d == s@.subrange(lo as int, to as int),
            d == count_digits(t),
            t == s@.subrange(from as int, to as int),
            forall|j: int| 0 <= j < i - lo ==> is_digit(#[trigger] d[j]),
        decreases to - i,
    {
        if !(48 <= s[i] && s[i] <= 57) {
            assert(!is_digit(d[i - lo]));
            return None;
        }
        i = i + 1;
    }
    let mut value: usize = 0;
    let mut k = lo;
    while k < to
        invariant
            lo <= k <= to <= s@.len(),
            d == s@.subrange(lo as int, to as int),
            d == count_digits(t),
            t == s@.subrange(from as int, to as int),
            forall|j: int| 0 <= j < d.len() ==> is_digit(#[trigger] d[j]),
            value == digits_value(d.subrange(0, k - lo)),
        decreases to - k,
    {
        let ghost p = d.subrange(0, k - lo + 1);
        assert(p.drop_last() =~= d.subrange(0, k - lo));
        assert(p.last() == s@[k as int]);
        let digit = (s[k] - 48) as usize;
        match value.checked_mul(10) {
            None => {
                proof {
                    lemma_digits_value_monotone(d, k - lo + 1);
                    assert(digits_value(p) == value * 10 + (s@[k as int] - 48) as nat);
                    assert(digits_value(d) > usize::MAX);
                }
                return None;
            },
            Some(m) => match m.checked_add(digit) {
                None => {
                    proof {
                        lemma_digits_value_monotone(d, k - lo + 1);
                        assert(digits_value(p) == m + digit);
                        assert(digits_value(d) > usize::MAX);
                    }
                    return None;
                },
                Some(v) => {
                    value = v;
                },
            },
        }
        k = k + 1;
    }
    assert(d.subrange(0, d.len() as int) =~= d);
    Some(value)
}

/// Parses a range file of shard `key` into its records, in line order, each
/// hash being the key followed by the line's suffix. A final line without a
/// terminator counts; the empty piece after a final `\n` does not.
pub fn parse_range_file(key: &Hash5, content: &[u8]) -> (r: Result<Vec<Password>, RangeFileError>)
    requires
        key.wf(),
    ensures
        match r {
            Ok(v) => parse_range(key_bytes(key@), content@) == Ok::<Seq<RecordView>, RangeFileError>(v@.map_values(|p: Password| p@)),
            Err(e) => parse_range(key_bytes(key@), content@) == Err::<Seq<RecordView>, RangeFileError>(e),
        },
{
    let kb = key.digits();
    let ghost s = content@;
    let ghost kv = kb@;
    let n = content.len();
    let mut out: Vec<Password> = Vec::new();
    let mut start: usize = 0;
    let mut index: usize = 0;
    proof {
        match parse_lines(kv, s, 0, 0) {
            Ok(rest) => {
                assert(out@.map_values(|p: Password| p@) + rest =~= rest);
            },
            Err(x) => {},
        }
    }
    while start < n
        invariant
            n == s.len(),
            s == content@,
            kv == kb@,
            kv == key_bytes(key@),
            index <= start <= n,
            parse_lines(kv, s, 0, 0) == match parse_lines(kv, s, start as int, index as int) {
                Ok(rest) => Ok(out@.map_values(|p: Password| p@) + rest),
                Err(x) => Err::<Seq<RecordView>, RangeFileError>(x),
            },
        decreases n - start,
    {
        let e = find_byte_in(content, 10, start, n);
        proof { lemma_find_byte_bounds(s, 10, start as int, n as int); }
        let le = if e < n && e > start && content[e - 1] == 13 { e - 1 } else { e };
        assert(le == line_end(s, start as int, e as int));
        let c = find_byte_in(content, 58, start, le);
        proof { lemma_find_byte_bounds(s, 58, start as int, le as int); }
        if c == le {
            return Err(RangeFileError::MissingSeparator { index });
        }
        match parse_count(content, c + 1, le) {
            None => {
                return Err(RangeFileError::InvalidCount { index });
            },
            Some(count) => {
                let mut hash: Vec<u8> = Vec::new();
                let mut j: usize = 0;
                while j < kb.len()
                    invariant
                        kv == kb@,
                        j <= kb@.len(),
                        hash@ =~= kb@.subrange(0, j as int),
                    decreases kb@.len() - j,
                {
                    hash.push(kb[j]);
                    j = j + 1;
                }
                let mut q = start;
                while q < c
                    invariant
                        start <= q <= c <= n,
                        n == s.len(),
                        s == content@,
                        hash@ =~= kb@ + s.subrange(start as int, q as int),
                    decreases c - q,
                {
                    hash.push(content[q]);
                    q = q + 1;
                }
                let ghost before = out@.map_values(|p: Password| p@);
                out.push(Password { hash, count });
                assert(out@.map_values(|p: Password| p@) =~= before.push((kv + s.subrange(start as int, c as int), count)));
                proof {
                    match parse_lines(kv, s, e + 1, index + 1) {
                        Ok(rest) => {
                            assert(before + (seq![(kv + s.subrange(start as int, c as int), count)] + rest)
                                =~= out@.map_values(|p: Password| p@) + rest);
                        },
                        Err(x) => {},
                    }
                }
                if e < n {
                    start = e + 1;
                } else {
                    start = n;
                }
                index = index + 1;
            },
        }
    }
    assert(out@.map_values(|p: Password| p@) + Seq::<RecordView>::empty() =~= out@.map_values(|p: Password| p@));
    Ok(out)
}

} // verus!
