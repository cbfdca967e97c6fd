//! The mapping between a five-digit hexadecimal range key and the relative
//! path of its shard: four nested one-digit directories and a one-digit leaf.

use vstd::prelude::*;
use vstd::string::StringSliceAdditionalSpecFns;

verus! {

/// Number of hexadecimal digits in a range key.
pub const KEY_LEN: usize = 5;

/// An ASCII hexadecimal digit, in either case.
pub open spec fn is_hex_byte(b: u8) -> bool {
    (48 <= b && b <= 57) || (65 <= b && b <= 70) || (97 <= b && b <= 102)
}

/// The upper-case digit that a hexadecimal byte stands for.
pub open spec fn upper_hex_char(b: u8) -> char {
    if 97 <= b && b <= 102 {
        ((b - 32) as u8) as char
    } else {
        b as char
    }
}

/// The characters joined by `/`: `"ABCDE"` becomes `"A/B/C/D/E"`.
pub open spec fn slash_joined(s: Seq<char>) -> Seq<char>
    decreases s.len(),
{
    if s.len() <= 1 {
        s
    } else {
        slash_joined(s.drop_last()) + seq!['/', s.last()]
    }
}

/// Bytes that form a range key: five hexadecimal digits.
pub open spec fn is_key_bytes(b: Seq<u8>) -> bool {
    b.len() == KEY_LEN && forall|i: int| 0 <= i < b.len() ==> is_hex_byte(#[trigger] b[i])
}

/// The canonical (upper-case) key spelled by hexadecimal bytes.
pub open spec fn canonical_key(b: Seq<u8>) -> Seq<char> {
    Seq::new(b.len(), |i: int| upper_hex_char(b[i]))
}

/// The relative path of the shard of a canonical key, without extension.
pub open spec fn shard_path(key: Seq<char>) -> Seq<char> {
    slash_joined(key)
}

/// The upper-case digit of a hexadecimal byte, as a one-character string.
pub fn hex(byte: u8) -> (r: &'static str)
    requires
        is_hex_byte(byte),
    ensures
        r@ == seq![upper_hex_char(byte)],
{
    match byte {
        48 => { proof { reveal_strlit("0"); } "0" },
        49 => { proof { reveal_strlit("1"); } "1" },
        50 => { proof { reveal_strlit("2"); } "2" },
        51 => { proof { reveal_strlit("3"); } "3" },
        52 => { proof { reveal_strlit("4"); } "4" },
        53 => { proof { reveal_strlit("5"); } "5" },
        54 => { proof { reveal_strlit("6"); } "6" },
        55 => { proof { reveal_strlit("7"); } "7" },
        56 => { proof { reveal_strlit("8"); } "8" },
        57 => { proof { reveal_strlit("9"); } "9" },
        65 | 97 => { proof { reveal_strlit("A"); } "A" },
        66 | 98 => { proof { reveal_strlit("B"); } "B" },
        67 | 99 => { proof { reveal_strlit("C"); } "C" },
        68 | 100 => { proof { reveal_strlit("D"); } "D" },
        69 | 101 => { proof { reveal_strlit("E"); } "E" },
        _ => { proof { reveal_strlit("F"); } "F" },
    }
}

/// Joins the characters of `prefix` with `/`, one directory level per
/// character.
pub fn format_prefix_to_dirs(prefix: &str) -> (r: String)
    ensures
        r@ == slash_joined(prefix@),
{
    let n = prefix.unicode_len();
    let mut acc = String::new();
    let mut i: usize = 0;
    while i < n
        invariant
            n == prefix@.len(),
            i <= n,
            acc@ == slash_joined(prefix@.subrange(0, i as int)),
        decreases n - i,
    {
        let c = prefix.substring_char(i, i + 1);
        let ghost before = acc@;
        if i > 0 {
            proof { reveal_strlit("/"); }
            acc.append("/");
        }
        acc.append(c);
        proof {
            let s = prefix@.subrange(0, i + 1);
            assert(s.drop_last() =~= prefix@.subrange(0, i as int));
            if i == 0 {
                assert(acc@ =~= s);
            } else {
                assert(acc@ =~= slash_joined(s.drop_last()) + seq!['/', s.last()]);
            }
        }
        i = i + 1;
    }
    assert(prefix@.subrange(0, n as int) =~= prefix@);
    acc
}

/// Why a string is not a range key.
#[derive(Debug, Clone, Copy, PartialEq, Eq)]
pub enum KeyError {
    /// The string is not five bytes long; `len` is its length in bytes.
    InvalidLength { len: usize },
    /// The first byte that is not an ASCII hexadecimal digit.
    InvalidChar { byte: u8 },
}

/// What decoding `raw` yields: the canonical key, or the first fault found.
pub open spec fn decode_result(raw: Seq<u8>) -> Result<Seq<char>, KeyError> {
    if raw.len() != KEY_LEN {
        Err(KeyError::InvalidLength { len: raw.len() as usize })
    } else if is_key_bytes(raw) {
        Ok(canonical_key(raw))
    } else {
        let i = choose|i: int|
            0 <= i < raw.len() && !is_hex_byte(raw[i]) && forall|j: int|
                0 <= j < i ==> is_hex_byte(#[trigger] raw[j]);
        Err(KeyError::InvalidChar { byte: raw[i] })
    }
}

/// The three stored forms of a shard.
#[derive(Debug, Clone, Copy, PartialEq, Eq)]
pub enum Representation {
    /// The canonical JSON bytes, stored as they are.
    Json,
    /// The canonical bytes, gzip-compressed.
    Gzip,
    /// The canonical bytes, Brotli-compressed.
    Brotli,
}

/// The file extension of a representation, dot included.
pub open spec fn extension_of(rep: Representation) -> Seq<char> {
    match rep {
        Representation::Json => seq!['.', 'j', 's', 'o', 'n'],
        Representation::Gzip => seq!['.', 'j', 's', 'o', 'n', '.', 'g', 'z'],
        Representation::Brotli => seq!['.', 'j', 's', 'o', 'n', '.', 'b', 'r'],
    }
}

/// The value of the `Content-Encoding` header that a representation is
/// served with, if any.
pub open spec fn content_encoding_of(rep: Representation) -> Option<Seq<char>> {
    match rep {
        Representation::Json => None,
        Representation::Gzip => Some(seq!['g', 'z', 'i', 'p']),
        Representation::Brotli => Some(seq!['b', 'r']),
    }
}

impl Representation {
    /// The file extension, dot included.
    pub fn extension(&self) -> (r: &'static str)
        ensures
            r@ == extension_of(*self),
    {
        match self {
            Representation::Json => {
                proof { reveal_strlit(".json"); }
                ".json"
            },
            Representation::Gzip => {
                proof { reveal_strlit(".json.gz"); }
                ".json.gz"
            },
            Representation::Brotli => {
                proof { reveal_strlit(".json.br"); }
                ".json.br"
            },
        }
    }

    /// The `Content-Encoding` header value, for a compressed form.
    pub fn content_encoding(&self) -> (r: Option<&'static str>)
        ensures
            r matches Some(t) ==> content_encoding_of(*self) == Some(t@),
            r is None <==> content_encoding_of(*self) is None,
    {
        match self {
            Representation::Json => None,
            Representation::Gzip => {
                proof { reveal_strlit("gzip"); }
                Some("gzip")
            },
            Representation::Brotli => {
                proof { reveal_strlit("br"); }
                Some("br")
            },
        }
    }
}

/// A validated range key, held in canonical (upper-case) form.
pub struct Hash5 {
    key: String,
    digits: Vec<u8>,
}

impl View for Hash5 {
    type V = Seq<char>;

    closed spec fn view(&self) -> Seq<char> {
        self.key@
    }
}

impl Hash5 {
    /// Every key is five upper-case hexadecimal digits, also held as bytes.
    pub closed spec fn wf(&self) -> bool {
        &&& exists|b: Seq<u8>| is_key_bytes(b) && self@ == canonical_key(b)
        &&& self.digits@ == key_bytes(self.key@)
    }

    /// Validates untrusted text as a range key. Any mix of cases is
    /// accepted; the key is kept in upper case.
    pub fn decode(raw: &str) -> (r: Result<Hash5, KeyError>)
        ensures
            r is Ok <==> is_key_bytes(raw.spec_bytes()),
            match r {
                Ok(h) => decode_result(raw.spec_bytes()) == Ok::<Seq<char>, KeyError>(h@) && h.wf(),
                Err(e) => decode_result(raw.spec_bytes()) == Err::<Seq<char>, KeyError>(e),
            },
    {
        let bytes = raw.as_bytes();
        if bytes.len() != KEY_LEN {
            return Err(KeyError::InvalidLength { len: bytes.len() });
        }
        let mut i: usize = 0;
        while i < KEY_LEN
            invariant
                bytes@ == raw.spec_bytes(),
                bytes@.len() == KEY_LEN,
                i <= KEY_LEN,
                forall|j: int| 0 <= j < i ==> is_hex_byte(#[trigger] bytes@[j]),
            decreases KEY_LEN - i,
        {
            let b = bytes[i];
            if !((48 <= b && b <= 57) || (65 <= b && b <= 70) || (97 <= b && b <= 102)) {
                proof {
                    let w = choose|k: int|
                        0 <= k < bytes@.len() && !is_hex_byte(bytes@[k]) && forall|j: int|
                            0 <= j < k ==> is_hex_byte(#[trigger] bytes@[j]);
                    assert(0 <= w < bytes@.len() && !is_hex_byte(bytes@[w]));
                    if w < i {
                    } else if w > i {
                        assert(is_hex_byte(bytes@[i as int]));
                    }
                }
                return Err(KeyError::InvalidChar { byte: b });
            }
            i = i + 1;
        }
        let mut key = String::new();
        let mut digits: Vec<u8> = Vec::new();
        let mut k: usize = 0;
        while k < KEY_LEN
            invariant
                bytes@ == raw.spec_bytes(),
                is_key_bytes(bytes@),
                k <= KEY_LEN,
                key@ =~= canonical_key(bytes@).subrange(0, k as int),
                digits@ =~= key_bytes(key@),
            decreases KEY_LEN - k,
        {
            let b = bytes[k];
            key.append(hex(b));
            let d: u8 = if 97 <= b { b - 32 } else { b };
            digits.push(d);
            k = k + 1;
        }
        assert(canonical_key(bytes@).subrange(0, KEY_LEN as int) =~= canonical_key(bytes@));
        Ok(Hash5 { key, digits })
    }

    /// The key's digits as ASCII bytes.
    pub fn digits(&self) -> (r: &[u8])
        requires
            self.wf(),
        ensures
            r@ == key_bytes(self@),
    {
        self.digits.as_slice()
    }

    /// The key's characters.
    pub fn key(&self) -> (r: &str)
        ensures
            r@ == self@,
    {
        self.key.as_str()
    }

    /// The relative path of one of the shard's files: `"A/B/C/D/E.json.br"`.
    pub fn artifact_path(&self, rep: Representation) -> (r: String)
        ensures
            r@ == shard_path(self@) + extension_of(rep),
    {
        let p = self.path();
        p.concat(rep.extension())
    }

    /// The shard's relative path without extension: `"A/B/C/D/E"`.
    pub fn path(&self) -> (r: String)
        ensures
            r@ == shard_path(self@),
    {
        format_prefix_to_dirs(self.key.as_str())
    }
}

/// The bytes that spell a key's characters.
pub open spec fn key_bytes(key: Seq<char>) -> Seq<u8> {
    Seq::new(key.len(), |i: int| key[i] as u8)
}

/// The path of a five-character key, written out.
proof fn lemma_path_of_five(k: Seq<char>)
    requires
        k.len() == 5,
    ensures
        shard_path(k) == seq![k[0], '/', k[1], '/', k[2], '/', k[3], '/', k[4]],
{
    reveal_with_fuel(slash_joined, 5);
    let k4 = k.drop_last();
    let k3 = k4.drop_last();
    let k2 = k3.drop_last();
    let k1 = k2.drop_last();
    assert(slash_joined(k1) =~= seq![k[0]]);
    assert(slash_joined(k2) =~= seq![k[0], '/', k[1]]);
    assert(slash_joined(k3) =~= seq![k[0], '/', k[1], '/', k[2]]);
    assert(slash_joined(k4) =~= seq![k[0], '/', k[1], '/', k[2], '/', k[3]]);
    assert(slash_joined(k) =~= seq![k[0], '/', k[1], '/', k[2], '/', k[3], '/', k[4]]);
}

/// Keys and shard paths are in one-to-one correspondence, whatever the case
/// a key was written in: the upper-case spelling of a valid key is itself
/// valid and decodes to the same key (hence to the same path), and two keys
/// share a path exactly when they are the same key.
pub proof fn lemma_key_path_bijective(a: Seq<u8>, b: Seq<u8>)
    requires
        is_key_bytes(a),
        is_key_bytes(b),
    ensures
        is_key_bytes(key_bytes(canonical_key(a))),
        decode_result(key_bytes(canonical_key(a))) == decode_result(a),
        shard_path(canonical_key(a)) == shard_path(canonical_key(b)) <==> canonical_key(a)
            == canonical_key(b),
{
    let ka = canonical_key(a);
    let kb = canonical_key(b);
    let c = key_bytes(ka);
    assert forall|i: int| 0 <= i < c.len() implies is_hex_byte(#[trigger] c[i])
        && upper_hex_char(c[i]) == ka[i] by {
        assert(is_hex_byte(a[i]));
    }
    assert(canonical_key(c) =~= ka);
    lemma_path_of_five(ka);
    lemma_path_of_five(kb);
    if shard_path(ka) == shard_path(kb) {
        let pa = shard_path(ka);
        let pb = shard_path(kb);
        assert(pa[0] == pb[0] && pa[2] == pb[2] && pa[4] == pb[4] && pa[6] == pb[6] && pa[8]
            == pb[8]);
        assert(ka =~= kb);
    }
}

} // verus!
