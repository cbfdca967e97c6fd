//! The canonical bytes of a shard: a compact JSON array of
//! `{"hash":"...","count":N}` objects in record order.

use vstd::prelude::*;
use crate::range_file::{Password, RecordView};

verus! {

/// A lower-case hexadecimal digit for a value below sixteen.
pub open spec fn hex_lower(n: u8) -> u8 {
    if n < 10 {
        (48 + n) as u8
    } else {
        (87 + n) as u8
    }
}

/// The text that stands for one byte inside a JSON string.
pub open spec fn escape_byte(b: u8) -> Seq<u8> {
    if b == 34 {
        seq![92u8, 34u8]
    } else if b == 92 {
        seq![92u8, 92u8]
    } else if b == 8 {
        seq![92u8, 98u8]
    } else if b == 9 {
        seq![92u8, 116u8]
    } else if b == 10 {
        seq![92u8, 110u8]
    } else if b == 12 {
        seq![92u8, 102u8]
    } else if b == 13 {
        seq![92u8, 114u8]
    } else if b < 32 {
        seq![92u8, 117u8, 48u8, 48u8, hex_lower(b / 16), hex_lower(b % 16)]
    } else {
        seq![b]
    }
}

/// The bytes of `s`, escaped for a JSON string.
pub open spec fn escaped(s: Seq<u8>) -> Seq<u8>
    decreases s.len(),
{
    if s.len() == 0 {
        Seq::empty()
    } else {
        escaped(s.drop_last()) + escape_byte(s.last())
    }
}

/// `s` as a JSON string literal.
pub open spec fn json_string(s: Seq<u8>) -> Seq<u8> {
    seq![34u8] + escaped(s) + seq![34u8]
}

/// The decimal digits of `n`, without leading zeros.
pub open spec fn decimal(n: nat) -> Seq<u8>
    decreases n,
{
    if n < 10 {
        seq![(48 + n) as u8]
    } else {
        decimal(n / 10) + seq![(48 + n % 10) as u8]
    }
}

/// `{"hash":`
pub open spec fn hash_open() -> Seq<u8> {
    seq![123u8, 34u8, 104u8, 97u8, 115u8, 104u8, 34u8, 58u8]
}

/// `,"count":`
pub open spec fn count_open() -> Seq<u8> {
    seq![44u8, 34u8, 99u8, 111u8, 117u8, 110u8, 116u8, 34u8, 58u8]
}

/// One record as a JSON object.
pub open spec fn json_record(r: RecordView) -> Seq<u8> {
    hash_open() + json_string(r.0) + count_open() + decimal(r.1 as nat) + seq![125u8]
}

/// The records as JSON objects separated by commas.
pub open spec fn json_records(rs: Seq<RecordView>) -> Seq<u8>
    decreases rs.len(),
{
    if rs.len() == 0 {
        Seq::empty()
    } else if rs.len() == 1 {
        json_record(rs[0])
    } else {
        json_records(rs.drop_last()) + seq![44u8] + json_record(rs.last())
    }
}

/// The canonical bytes of a shard holding `rs`.
pub open spec fn json_shard(rs: Seq<RecordView>) -> Seq<u8> {
    seq![91u8] + json_records(rs) + seq![93u8]
}

fn push_all(out: &mut Vec<u8>, src: &[u8])
    ensures
        final(out)@ == old(out)@ + src@,
{
    let mut i: usize = 0;
    while i < src.len()
        invariant
            i <= src@.len(),
            out@ =~= old(out)@ + src@.subrange(0, i as int),
        decreases src@.len() - i,
    {
        out.push(src[i]);
        i = i + 1;
    }
}

fn push_decimal(out: &mut Vec<u8>, n: usize)
    ensures
        final(out)@ == old(out)@ + decimal(n as nat),
    decreases n,
{
    if n < 10 {
        out.push((48 + n) as u8);
        assert(out@ =~= old(out)@ + decimal(n as nat));
    } else {
        push_decimal(out, n / 10);
        out.push((48 + n % 10) as u8);
        assert(out@ =~= old(out)@ + decimal(n as nat));
    }
}

fn hex_digit_lower(n: u8) -> (r: u8)
    requires
        n < 16,
    ensures
        r == hex_lower(n),
{
    if n < 10 {
        48 + n
    } else {
        87 + n
    }
}

fn push_escaped(out: &mut Vec<u8>, s: &[u8])
    ensures
        final(out)@ == old(out)@ + escaped(s@),
{
    let mut i: usize = 0;
    while i < s.len()
        invariant
            i <= s@.len(),
            out@ =~= old(out)@ + escaped(s@.subrange(0, i as int)),
        decreases s@.len() - i,
    {
        let b = s[i];
        let ghost before = out@;
        if b == 34 || b == 92 {
            out.push(92);
            out.push(b);
        } else if b == 8 {
            out.push(92);
            out.push(98);
        } else if b == 9 {
            out.push(92);
            out.push(116);
        } else if b == 10 {
            out.push(92);
            out.push(110);
        } else if b == 12 {
            out.push(92);
            out.push(102);
        } else if b == 13 {
            out.push(92);
            out.push(114);
        } else if b < 32 {
            out.push(92);
            out.push(117);
            out.push(48);
            out.push(48);
            out.push(hex_digit_lower(b / 16));
            out.push(hex_digit_lower(b % 16));
        } else {
            out.push(b);
        }
        proof {
            let p = s@.subrange(0, i + 1);
            assert(p.drop_last() =~= s@.subrange(0, i as int));
            assert(out@ =~= before + escape_byte(b));
            assert(out@ =~= old(out)@ + escaped(p));
        }
        i = i + 1;
    }
    assert(s@.subrange(0, s@.len() as int) =~= s@);
}

fn push_record(out: &mut Vec<u8>, p: &Password)
    ensures
        final(out)@ == old(out)@ + json_record(p@),
{
    out.push(123);
    out.push(34);
    out.push(104);
    out.push(97);
    out.push(115);
    out.push(104);
    out.push(34);
    out.push(58);
    let ghost a = out@;
    out.push(34);
    push_escaped(out, p.hash.as_slice());
    out.push(34);
    let ghost b = out@;
    out.push(44);
    out.push(34);
    out.push(99);
    out.push(111);
    out.push(117);
    out.push(110);
    out.push(116);
    out.push(34);
    out.push(58);
    let ghost c = out@;
    push_decimal(out, p.count);
    out.push(125);
    assert(a =~= old(out)@ + hash_open());
    assert(b =~= a + json_string(p.hash@));
    assert(c =~= b + count_open());
    assert(out@ =~= old(out)@ + json_record(p@));
}

/// Serializes a shard's records, in order, into its canonical bytes.
pub fn serialize_shard(records: &Vec<Password>) -> (r: Vec<u8>)
    ensures
        r@ == json_shard(records@.map_values(|p: Password| p@)),
{
    let ghost rs = records@.map_values(|p: Password| p@);
    let mut out: Vec<u8> = Vec::new();
    out.push(91);
    let mut i: usize = 0;
    while i < records.len()
        invariant
            i <= records@.len(),
            rs == records@.map_values(|p: Password| p@),
            out@ =~= seq![91u8] + json_records(rs.subrange(0, i as int)),
        decreases records@.len() - i,
    {
        let ghost before = out@;
        if i > 0 {
            out.push(44);
        }
        push_record(&mut out, &records[i]);
        proof {
            let q = rs.subrange(0, i + 1);
            assert(q.drop_last() =~= rs.subrange(0, i as int));
            assert(q.last() == records@[i as int]@);
            if i == 0 {
                assert(out@ =~= seq![91u8] + json_records(q));
            } else {
                assert(out@ =~= seq![91u8] + json_records(q));
            }
        }
        i = i + 1;
    }
    out.push(93);
    assert(rs.subrange(0, rs.len() as int) =~= rs);
    out
}

} // verus!
