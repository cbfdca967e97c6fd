//! The build side: from one range file to the three stored forms of its
//! shard, the directory skeleton, the completeness check and the byte totals.

use vstd::prelude::*;
use crate::compress::{brotli_default, brotli_default_of, gzip_best, gzip_best_of};
use crate::path_codec::{
    decode_result, format_prefix_to_dirs, hex, is_hex_byte, key_bytes, slash_joined,
    upper_hex_char, Hash5, KeyError,
};
use crate::range_file::{parse_range, parse_range_file, Password, RangeFileError};
use crate::shard_json::{json_shard, serialize_shard};
use vstd::string::StringSliceAdditionalSpecFns;

verus! {

/// Number of shards in a complete store: one per five-digit key.
pub const KEYSPACE: usize = 1048576;

/// Number of directories in the skeleton: one per four-digit prefix.
pub const DIRECTORY_COUNT: usize = 65536;

/// Why a build, or the work on one shard, failed.
#[derive(Debug, Clone, Copy, PartialEq, Eq)]
pub enum BuildError {
    /// An input file's name is not a range key.
    InvalidKey(KeyError),
    /// An input file holds a malformed line.
    Malformed(RangeFileError),
    /// An encoder failed.
    Compression,
    /// A strict build found this many input files instead of one per key.
    Incomplete { found: usize },
}

/// Which stored forms a build writes.
#[derive(Debug, Clone, Copy, PartialEq, Eq)]
pub struct OutputFlags {
    pub json: bool,
    pub gzip: bool,
    pub brotli: bool,
}

/// The stored forms of one shard; a form that was not asked for is `None`.
pub struct ShardArtifacts {
    pub json: Option<Vec<u8>>,
    pub gzip: Option<Vec<u8>>,
    pub brotli: Option<Vec<u8>>,
}

/// A form's bytes: present exactly when asked for, and then equal to `v`.
pub open spec fn form_is(form: Option<Vec<u8>>, asked: bool, v: Seq<u8>) -> bool {
    match form {
        Some(b) => asked && b@ == v,
        None => !asked,
    }
}

/// The forms of a shard with canonical bytes `c`, as `flags` asks.
pub open spec fn artifacts_of(a: ShardArtifacts, flags: OutputFlags, c: Seq<u8>) -> bool {
    &&& form_is(a.json, flags.json, c)
    &&& form_is(a.gzip, flags.gzip, gzip_best_of(c))
    &&& form_is(a.brotli, flags.brotli, brotli_default_of(c))
}

/// From a shard's records, its canonical bytes and each compressed form that
/// `flags` asks for. All forms derive from the one canonical byte string.
pub fn transcode(records: &Vec<Password>, flags: OutputFlags) -> (r: Result<
    ShardArtifacts,
    BuildError,
>)
    ensures
        match r {
            Ok(a) => artifacts_of(a, flags, json_shard(records@.map_values(|p: Password| p@))),
            Err(e) => e == BuildError::Compression && (flags.gzip || flags.brotli),
        },
{
    let canonical = serialize_shard(records);
    let gzip = if flags.gzip {
        match gzip_best(canonical.as_slice()) {
            Ok(v) => Some(v),
            Err(_) => {
                return Err(BuildError::Compression);
            },
        }
    } else {
        None
    };
    let brotli = if flags.brotli {
        match brotli_default(canonical.as_slice()) {
            Ok(v) => Some(v),
            Err(_) => {
                return Err(BuildError::Compression);
            },
        }
    } else {
        None
    };
    let json = if flags.json {
        Some(canonical)
    } else {
        None
    };
    Ok(ShardArtifacts { json, gzip, brotli })
}

/// One shard, ready to be written: the key, and its forms.
pub struct BuiltShard {
    pub key: Hash5,
    pub artifacts: ShardArtifacts,
}

/// The build of one input file, named `file_stem` and holding `content`.
/// The name must be a range key (in any case) and every line well formed;
/// the records keep line order, with the key in upper case in each hash.
pub fn build_shard(file_stem: &str, content: &[u8], flags: OutputFlags) -> (r: Result<
    BuiltShard,
    BuildError,
>)
    ensures
        match decode_result(file_stem.spec_bytes()) {
            Err(ke) => r == Err::<BuiltShard, BuildError>(BuildError::InvalidKey(ke)),
            Ok(k) => match parse_range(key_bytes(k), content@) {
                Err(pe) => r == Err::<BuiltShard, BuildError>(BuildError::Malformed(pe)),
                Ok(rs) => match r {
                    Ok(s) => s.key@ == k && s.key.wf() && artifacts_of(s.artifacts, flags, json_shard(rs)),
                    Err(e) => e == BuildError::Compression && (flags.gzip || flags.brotli),
                },
            },
        },
{
    let key = match Hash5::decode(file_stem) {
        Ok(k) => k,
        Err(e) => {
            return Err(BuildError::InvalidKey(e));
        },
    };
    let records = match parse_range_file(&key, content) {
        Ok(v) => v,
        Err(e) => {
            return Err(BuildError::Malformed(e));
        },
    };
    let artifacts = transcode(&records, flags)?;
    Ok(BuiltShard { key, artifacts })
}

/// Whether a build may go on: a strict build needs exactly one input file
/// per key; any other build always may.
pub fn check_completeness(strict: bool, found: usize) -> (r: Result<(), BuildError>)
    ensures
        r is Ok <==> (!strict || found == KEYSPACE),
        r matches Err(e) ==> (e == (BuildError::Incomplete { found })),
{
    if strict && found != KEYSPACE {
        Err(BuildError::Incomplete { found })
    } else {
        Ok(())
    }
}

/// The ASCII upper-case hexadecimal digit for a value below sixteen.
pub open spec fn digit_byte(n: int) -> u8 {
    if n < 10 {
        (48 + n) as u8
    } else {
        (55 + n) as u8
    }
}

/// The skeleton directory numbered `i`: the four hexadecimal digits of `i`,
/// most significant first, as nested directories (`"0/0/F/F"` for 255).
pub open spec fn skeleton_directory(i: int) -> Seq<char> {
    slash_joined(
        seq![
            upper_hex_char(digit_byte(i / 4096)),
            upper_hex_char(digit_byte((i / 256) % 16)),
            upper_hex_char(digit_byte((i / 16) % 16)),
            upper_hex_char(digit_byte(i % 16)),
        ],
    )
}

fn digit(n: usize) -> (r: &'static str)
    requires
        n < 16,
    ensures
        r@ == seq![upper_hex_char(digit_byte(n as int))],
{
    let b: u8 = if n < 10 {
        48 + n as u8
    } else {
        55 + n as u8
    };
    assert(is_hex_byte(b));
    hex(b)
}

/// Every directory that shards are written into, relative to the store
/// root: one for each four-digit prefix, in ascending order. They must all
/// exist before any shard is written.
pub fn skeleton_directories() -> (r: Vec<String>)
    ensures
        r@.len() == DIRECTORY_COUNT,
        forall|i: int| 0 <= i < DIRECTORY_COUNT ==> (#[trigger] r@[i])@ == skeleton_directory(i),
{
    let mut out: Vec<String> = Vec::new();
    let mut i: usize = 0;
    while i < DIRECTORY_COUNT
        invariant
            i <= DIRECTORY_COUNT,
            out@.len() == i,
            forall|j: int| 0 <= j < i ==> (#[trigger] out@[j])@ == skeleton_directory(j),
        decreases DIRECTORY_COUNT - i,
    {
        assert(i / 4096 < 16) by (nonlinear_arith)
            requires
                i < 65536,
        ;
        let mut prefix = String::new();
        prefix.append(digit(i / 4096));
        prefix.append(digit((i / 256) % 16));
        prefix.append(digit((i / 16) % 16));
        prefix.append(digit(i % 16));
        let dir = format_prefix_to_dirs(prefix.as_str());
        assert(prefix@ =~= seq![
            upper_hex_char(digit_byte(i as int / 4096)),
            upper_hex_char(digit_byte((i as int / 256) % 16)),
            upper_hex_char(digit_byte((i as int / 16) % 16)),
            upper_hex_char(digit_byte(i as int % 16)),
        ]);
        out.push(dir);
        i = i + 1;
    }
    out
}

/// Bytes written so far for each stored form. Sums wrap at 2^64, as the
/// shared counters that a parallel build adds into do.
#[derive(Debug, Clone, Copy, PartialEq, Eq)]
pub struct ByteTotals {
    pub json: u64,
    pub gzip: u64,
    pub brotli: u64,
}

/// The field-by-field sum of two totals.
pub open spec fn sum_of(a: ByteTotals, b: ByteTotals) -> ByteTotals {
    ByteTotals {
        json: vstd::wrapping::u64_specs::wrapping_add(a.json, b.json),
        gzip: vstd::wrapping::u64_specs::wrapping_add(a.gzip, b.gzip),
        brotli: vstd::wrapping::u64_specs::wrapping_add(a.brotli, b.brotli),
    }
}

/// The length of a form's bytes, or 0 when it was not made.
pub open spec fn form_len(form: Option<Vec<u8>>) -> u64 {
    match form {
        Some(b) => b@.len() as u64,
        None => 0,
    }
}

fn form_size(form: &Option<Vec<u8>>) -> (r: u64)
    ensures
        r == form_len(*form),
{
    match form {
        Some(b) => b.len() as u64,
        None => 0,
    }
}

impl ByteTotals {
    /// No bytes yet.
    pub fn zero() -> (r: ByteTotals)
        ensures
            r == (ByteTotals { json: 0, gzip: 0, brotli: 0 }),
    {
        ByteTotals { json: 0, gzip: 0, brotli: 0 }
    }

    /// The bytes of one shard's forms.
    pub fn of_shard(a: &ShardArtifacts) -> (r: ByteTotals)
        ensures
            r == (ByteTotals {
                json: form_len(a.json),
                gzip: form_len(a.gzip),
                brotli: form_len(a.brotli),
            }),
    {
        ByteTotals { json: form_size(&a.json), gzip: form_size(&a.gzip), brotli: form_size(&a.brotli) }
    }

    /// The sum of two totals.
    pub fn merged(&self, other: &ByteTotals) -> (r: ByteTotals)
        ensures
            r == sum_of(*self, *other),
    {
        ByteTotals {
            json: self.json.wrapping_add(other.json),
            gzip: self.gzip.wrapping_add(other.gzip),
            brotli: self.brotli.wrapping_add(other.brotli),
        }
    }
}

/// The totals of a build do not depend on the order in which shards finish:
/// adding totals is commutative and associative, and zero adds nothing.
pub proof fn lemma_totals_order_free(a: ByteTotals, b: ByteTotals, c: ByteTotals)
    ensures
        sum_of(a, b) == sum_of(b, a),
        sum_of(sum_of(a, b), c) == sum_of(a, sum_of(b, c)),
        sum_of(a, ByteTotals { json: 0, gzip: 0, brotli: 0 }) == a,
{
}

} // verus!
