//! The serve side: reading the client's `Accept-Encoding` values, choosing
//! a stored form, and planning the answer to a lookup.

use vstd::prelude::*;
use crate::path_codec::{
    decode_result, extension_of, shard_path, Hash5, KeyError, Representation,
};
use vstd::string::StringSliceAdditionalSpecFns;

verus! {

/// A byte that a header value may hold if it is to be read as text:
/// visible ASCII, space or tab.
pub open spec fn is_visible_ascii(b: u8) -> bool {
    (32 <= b && b < 127) || b == 9
}

/// ASCII white space, as `str::trim` removes it.
pub open spec fn is_ws(b: u8) -> bool {
    b == 32 || (9 <= b && b <= 13)
}

/// The pieces of `v` between commas (one more than there are commas).
pub open spec fn split_commas(v: Seq<u8>) -> Seq<Seq<u8>>
    decreases v.len(),
{
    if v.len() == 0 {
        seq![Seq::empty()]
    } else if v.last() == 44 {
        split_commas(v.drop_last()).push(Seq::empty())
    } else {
        let p = split_commas(v.drop_last());
        p.update(p.len() - 1, p.last().push(v.last()))
    }
}

pub open spec fn trim_start(s: Seq<u8>) -> Seq<u8>
    decreases s.len(),
{
    if s.len() > 0 && is_ws(s[0]) {
        trim_start(s.drop_first())
    } else {
        s
    }
}

pub open spec fn trim_end(s: Seq<u8>) -> Seq<u8>
    decreases s.len(),
{
    if s.len() > 0 && is_ws(s.last()) {
        trim_end(s.drop_last())
    } else {
        s
    }
}

/// `s` without white space at either end.
pub open spec fn trim(s: Seq<u8>) -> Seq<u8> {
    trim_end(trim_start(s))
}

/// `;q=`, which starts a quality weight.
pub open spec fn quality_mark() -> Seq<u8> {
    seq![59u8, 113u8, 61u8]
}

/// `br`
pub open spec fn br_name() -> Seq<u8> {
    seq![98u8, 114u8]
}

/// `gzip`
pub open spec fn gzip_name() -> Seq<u8> {
    seq![103u8, 122u8, 105u8, 112u8]
}

/// The part of `t` before its first `;q=` is `n`, for a name `n` that holds
/// no `;`: either `t` is `n`, or `t` is `n` followed by `;q=` and a weight.
pub open spec fn names(t: Seq<u8>, n: Seq<u8>) -> bool {
    t == n || (t.len() >= n.len() + 3 && t.subrange(0, n.len() as int) == n && t.subrange(
        n.len() as int,
        n.len() + 3int,
    ) == quality_mark())
}

/// The comma-separated item `seg` names encoding `n`.
pub open spec fn token_is(seg: Seq<u8>, n: Seq<u8>) -> bool {
    names(trim(seg), n)
}

/// One of the first `m` pieces names encoding `n`.
pub open spec fn some_piece_names(parts: Seq<Seq<u8>>, m: int, n: Seq<u8>) -> bool {
    exists|j: int| 0 <= j < m && j < parts.len() && token_is(#[trigger] parts[j], n)
}

/// Some comma-separated item of the header value `v` names encoding `n`.
pub open spec fn value_accepts(v: Seq<u8>, n: Seq<u8>) -> bool {
    some_piece_names(split_commas(v), split_commas(v).len() as int, n)
}

/// Some item of some header value names encoding `n`.
pub open spec fn accepts(values: Seq<Seq<u8>>, n: Seq<u8>) -> bool {
    exists|i: int| 0 <= i < values.len() && value_accepts(#[trigger] values[i], n)
}

/// Every header value can be read as text.
pub open spec fn all_text(values: Seq<Seq<u8>>) -> bool {
    forall|i: int, k: int|
        0 <= i < values.len() && 0 <= k < values[i].len() ==> is_visible_ascii(
            #[trigger] values[i][k],
        )
}

/// The encodings that a client accepts.
#[derive(Debug, Default, Clone, Copy, PartialEq, Eq)]
pub struct AcceptedEncodings {
    pub brotli: bool,
    pub gzip: bool,
}

/// A malformed `Accept-Encoding` header.
#[derive(Debug, Clone, Copy, PartialEq, Eq)]
pub enum Error {
    /// A value holds a byte that is not visible ASCII, space or tab.
    ToStrError,
}

/// What an `Accept-Encoding` item names.
#[derive(Debug, Clone, Copy, PartialEq, Eq)]
pub enum EncodingToken {
    Brotli,
    GeneralCompressed,
    Unrecognized,
}

proof fn lemma_split_nonempty(v: Seq<u8>)
    ensures
        split_commas(v).len() >= 1,
    decreases v.len(),
{
    if v.len() > 0 {
        lemma_split_nonempty(v.drop_last());
    }
}

/// How the pieces change when the prefix `v[..k]` grows by one byte.
proof fn lemma_split_step(v: Seq<u8>, k: int, a: int)
    requires
        0 <= a <= k < v.len(),
        split_commas(v.subrange(0, k)).last() == v.subrange(a, k),
    ensures
        ({
            let old_p = split_commas(v.subrange(0, k));
            let new_p = split_commas(v.subrange(0, k + 1));
            &&& old_p.len() >= 1
            &&& v[k] == 44 ==> new_p == old_p.push(Seq::empty())
            &&& v[k] != 44 ==> new_p.len() == old_p.len() && new_p.last() == v.subrange(a, k + 1)
                && forall|j: int| 0 <= j < old_p.len() - 1 ==> new_p[j] == old_p[j]
        }),
{
    let p = v.subrange(0, k + 1);
    assert(p.drop_last() =~= v.subrange(0, k));
    lemma_split_nonempty(v.subrange(0, k));
    if v[k] != 44 {
        assert(v.subrange(a, k).push(v[k]) =~= v.subrange(a, k + 1));
    }
}

proof fn lemma_comma_step(old_p: Seq<Seq<u8>>, new_p: Seq<Seq<u8>>, nm: Seq<u8>)
    requires
        old_p.len() >= 1,
        new_p == old_p.push(Seq::empty()),
    ensures
        some_piece_names(new_p, new_p.len() - 1, nm) == (some_piece_names(old_p, old_p.len() - 1, nm)
            || token_is(old_p.last(), nm)),
{
    let m = old_p.len() as int;
    if some_piece_names(new_p, new_p.len() - 1, nm) {
        let j = choose|j: int| 0 <= j < new_p.len() - 1 && j < new_p.len() && token_is(#[trigger] new_p[j], nm);
        assert(old_p[j] == new_p[j]);
    }
    if some_piece_names(old_p, m - 1, nm) {
        let j = choose|j: int| 0 <= j < m - 1 && j < old_p.len() && token_is(#[trigger] old_p[j], nm);
        assert(new_p[j] == old_p[j]);
    }
    if token_is(old_p.last(), nm) {
        assert(new_p[m - 1] == old_p[m - 1]);
    }
}

proof fn lemma_extend_step(old_p: Seq<Seq<u8>>, new_p: Seq<Seq<u8>>, nm: Seq<u8>)
    requires
        old_p.len() >= 1,
        new_p.len() == old_p.len(),
        forall|j: int| 0 <= j < old_p.len() - 1 ==> new_p[j] == old_p[j],
    ensures
        some_piece_names(new_p, new_p.len() - 1, nm) == some_piece_names(old_p, old_p.len() - 1, nm),
{
    let m = old_p.len() as int;
    if some_piece_names(new_p, m - 1, nm) {
        let j = choose|j: int| 0 <= j < m - 1 && j < new_p.len() && token_is(#[trigger] new_p[j], nm);
        assert(old_p[j] == new_p[j]);
    }
    if some_piece_names(old_p, m - 1, nm) {
        let j = choose|j: int| 0 <= j < m - 1 && j < old_p.len() && token_is(#[trigger] old_p[j], nm);
        assert(new_p[j] == old_p[j]);
    }
}

proof fn lemma_last_piece(p: Seq<Seq<u8>>, nm: Seq<u8>)
    requires
        p.len() >= 1,
    ensures
        some_piece_names(p, p.len() as int, nm) == (some_piece_names(p, p.len() - 1, nm) || token_is(
            p.last(),
            nm,
        )),
{
    let m = p.len() as int;
    if some_piece_names(p, m, nm) {
        let j = choose|j: int| 0 <= j < m && j < p.len() && token_is(#[trigger] p[j], nm);
        if j < m - 1 {
            assert(some_piece_names(p, m - 1, nm));
        }
    }
    if token_is(p.last(), nm) {
        assert(token_is(p[m - 1], nm));
    }
}

/// Reads one header value into `acc`.
fn scan_value(v: &[u8], acc: AcceptedEncodings) -> (r: AcceptedEncodings)
    ensures
        r.brotli == (acc.brotli || value_accepts(v@, br_name())),
        r.gzip == (acc.gzip || value_accepts(v@, gzip_name())),
{
    let n = v.len();
    let mut brotli = acc.brotli;
    let mut gzip = acc.gzip;
    let mut a: usize = 0;
    let mut k: usize = 0;
    proof {
        let e = v@.subrange(0, 0);
        assert(e.len() == 0);
        assert(split_commas(e) == seq![Seq::<u8>::empty()]);
        assert(e =~= Seq::<u8>::empty());
    }
    while k < n
        invariant
            n == v@.len(),
            a <= k <= n,
            split_commas(v@.subrange(0, k as int)).len() >= 1,
            split_commas(v@.subrange(0, k as int)).last() == v@.subrange(a as int, k as int),
            brotli == (acc.brotli || some_piece_names(
                split_commas(v@.subrange(0, k as int)),
                split_commas(v@.subrange(0, k as int)).len() - 1,
                br_name(),
            )),
            gzip == (acc.gzip || some_piece_names(
                split_commas(v@.subrange(0, k as int)),
                split_commas(v@.subrange(0, k as int)).len() - 1,
                gzip_name(),
            )),
        decreases n - k,
    {
        let ghost old_p = split_commas(v@.subrange(0, k as int));
        proof { lemma_split_step(v@, k as int, a as int); }
        let ghost new_p = split_commas(v@.subrange(0, k + 1));
        if v[k] == 44 {
            let t = classify_token(v, a, k);
            proof {
                lemma_comma_step(old_p, new_p, br_name());
                lemma_comma_step(old_p, new_p, gzip_name());
            }
            match t {
                EncodingToken::Brotli => {
                    brotli = true;
                },
                EncodingToken::GeneralCompressed => {
                    gzip = true;
                },
                EncodingToken::Unrecognized => {},
            }
            a = k + 1;
            proof {
                assert(v@.subrange(a as int, k + 1) =~= Seq::<u8>::empty());
            }
        } else {
            proof {
                lemma_extend_step(old_p, new_p, br_name());
                lemma_extend_step(old_p, new_p, gzip_name());
            }
        }
        k = k + 1;
    }
    let t = classify_token(v, a, n);
    proof {
        assert(v@.subrange(0, n as int) =~= v@);
        lemma_split_nonempty(v@);
        lemma_last_piece(split_commas(v@), br_name());
        lemma_last_piece(split_commas(v@), gzip_name());
    }
    match t {
        EncodingToken::Brotli => {
            brotli = true;
        },
        EncodingToken::GeneralCompressed => {
            gzip = true;
        },
        EncodingToken::Unrecognized => {},
    }
    AcceptedEncodings { brotli, gzip }
}

proof fn lemma_trim_start_step(v: Seq<u8>, lo: int, b: int)
    requires
        0 <= lo < b <= v.len(),
        is_ws(v[lo]),
    ensures
        trim_start(v.subrange(lo, b)) == trim_start(v.subrange(lo + 1, b)),
{
    assert(v.subrange(lo, b).drop_first() =~= v.subrange(lo + 1, b));
}

proof fn lemma_trim_end_step(v: Seq<u8>, lo: int, hi: int)
    requires
        0 <= lo < hi <= v.len(),
        is_ws(v[hi - 1]),
    ensures
        trim_end(v.subrange(lo, hi)) == trim_end(v.subrange(lo, hi - 1)),
{
    assert(v.subrange(lo, hi).drop_last() =~= v.subrange(lo, hi - 1));
}

proof fn lemma_trim_end_start(s: Seq<u8>)
    requires
        s.len() > 0 ==> !is_ws(s[0]),
    ensures
        trim_end(s).len() > 0 ==> !is_ws(trim_end(s)[0]),
        trim_start(s) == s,
    decreases s.len(),
{
    if s.len() > 0 && is_ws(s.last()) {
        lemma_trim_end_start(s.drop_last());
    }
}

fn is_ws_byte(b: u8) -> (r: bool)
    ensures
        r == is_ws(b),
{
    b == 32 || (9 <= b && b <= 13)
}

fn names_at(v: &[u8], lo: usize, hi: usize, n: &[u8]) -> (r: bool)
    requires
        lo <= hi <= v@.len(),
        n@.len() <= 8,
    ensures
        r == names(v@.subrange(lo as int, hi as int), n@),
{
    let ghost t = v@.subrange(lo as int, hi as int);
    let len = hi - lo;
    if len < n.len() {
        return false;
    }
    let mut i: usize = 0;
    while i < n.len()
        invariant
            lo <= hi <= v@.len(),
            hi - lo >= n@.len(),
            t == v@.subrange(lo as int, hi as int),
            i <= n@.len(),
            t.subrange(0, i as int) =~= n@.subrange(0, i as int),
        decreases n@.len() - i,
    {
        if v[lo + i] != n[i] {
            assert(t[i as int] != n@[i as int]);
            assert(t.subrange(0, n@.len() as int)[i as int] != n@[i as int]);
            return false;
        }
        i = i + 1;
    }
    assert(t.subrange(0, n@.len() as int) =~= n@);
    if len == n.len() {
        assert(t =~= n@);
        return true;
    }
    let m = lo + n.len();
    let r = len >= n.len() + 3 && v[m] == 59 && v[m + 1] == 113 && v[m + 2] == 61;
    proof {
        if r {
            assert(t.subrange(n@.len() as int, n@.len() + 3int) =~= quality_mark());
        } else if t.len() >= n@.len() + 3 {
            let q = t.subrange(n@.len() as int, n@.len() + 3int);
            assert(q[0] == v@[m as int] && q[1] == v@[m + 1] && q[2] == v@[m + 2]);
            assert(q != quality_mark());
        }
        assert(t.len() != n@.len());
    }
    r
}

/// Classifies the item `v[a..b)` of a header value: white space around it
/// is ignored, and so is a `;q=` weight after the name.
pub fn classify_token(v: &[u8], a: usize, b: usize) -> (r: EncodingToken)
    requires
        a <= b <= v@.len(),
    ensures
        (r == EncodingToken::Brotli) == token_is(v@.subrange(a as int, b as int), br_name()),
        (r == EncodingToken::GeneralCompressed) == token_is(
            v@.subrange(a as int, b as int),
            gzip_name(),
        ),
{
    let mut lo = a;
    while lo < b && is_ws_byte(v[lo])
        invariant
            a <= lo <= b <= v@.len(),
            trim_start(v@.subrange(a as int, b as int)) == trim_start(v@.subrange(lo as int, b as int)),
        decreases b - lo,
    {
        proof { lemma_trim_start_step(v@, lo as int, b as int); }
        lo = lo + 1;
    }
    proof {
        let s = v@.subrange(lo as int, b as int);
        if s.len() > 0 {
            assert(s[0] == v@[lo as int]);
        }
        lemma_trim_end_start(s);
    }
    let mut hi = b;
    while hi > lo && is_ws_byte(v[hi - 1])
        invariant
            a <= lo <= hi <= b <= v@.len(),
            trim(v@.subrange(a as int, b as int)) == trim_end(v@.subrange(lo as int, hi as int)),
        decreases hi - lo,
    {
        proof { lemma_trim_end_step(v@, lo as int, hi as int); }
        hi = hi - 1;
    }
    proof {
        let s = v@.subrange(lo as int, hi as int);
        if s.len() > 0 {
            assert(s.last() == v@[hi - 1]);
        }
    }
    let br: [u8; 2] = [98, 114];
    let gzip: [u8; 4] = [103, 122, 105, 112];
    assert(br@ =~= br_name());
    assert(gzip@ =~= gzip_name());
    let is_br = names_at(v, lo, hi, br.as_slice());
    let is_gzip = names_at(v, lo, hi, gzip.as_slice());
    proof {
        let t = v@.subrange(lo as int, hi as int);
        if is_br && is_gzip {
            assert(t[0] == 98u8);
            assert(t[0] == 103u8);
        }
    }
    if is_br {
        EncodingToken::Brotli
    } else if is_gzip {
        EncodingToken::GeneralCompressed
    } else {
        EncodingToken::Unrecognized
    }
}

/// The header values as byte strings.
pub open spec fn values_view(values: Seq<Vec<u8>>) -> Seq<Seq<u8>> {
    values.map_values(|v: Vec<u8>| v@)
}

/// Reads every `Accept-Encoding` value (the header may repeat): each is
/// split on commas, each item trimmed and stripped of a `;q=` weight, and
/// `br` and `gzip` recognised; other items are ignored. A value that
/// cannot be read as text makes the whole header malformed.
pub fn get_accepted_encodings(values: &Vec<Vec<u8>>) -> (r: Result<AcceptedEncodings, Error>)
    ensures
        r is Ok <==> all_text(values_view(values@)),
        r matches Ok(acc) ==> acc.brotli == accepts(values_view(values@), br_name()) && acc.gzip
            == accepts(values_view(values@), gzip_name()),
        r matches Err(e) ==> e == Error::ToStrError,
{
    let ghost vs = values_view(values@);
    let mut i: usize = 0;
    while i < values.len()
        invariant
            i <= values@.len(),
            vs == values_view(values@),
            forall|x: int, k: int|
                0 <= x < i && 0 <= k < vs[x].len() ==> is_visible_ascii(#[trigger] vs[x][k]),
        decreases values@.len() - i,
    {
        let v = &values[i];
        let mut k: usize = 0;
        while k < v.len()
            invariant
                i < values@.len(),
                vs == values_view(values@),
                v@ == vs[i as int],
                k <= v@.len(),
                forall|x: int, k: int|
                    0 <= x < i && 0 <= k < vs[x].len() ==> is_visible_ascii(#[trigger] vs[x][k]),
                forall|q: int| 0 <= q < k ==> is_visible_ascii(#[trigger] vs[i as int][q]),
            decreases v@.len() - k,
        {
            let b = v[k];
            if !((32 <= b && b < 127) || b == 9) {
                assert(!is_visible_ascii(vs[i as int][k as int]));
                return Err(Error::ToStrError);
            }
            k = k + 1;
        }
        i = i + 1;
    }
    let mut acc = AcceptedEncodings { brotli: false, gzip: false };
    let mut j: usize = 0;
    while j < values.len()
        invariant
            j <= values@.len(),
            vs == values_view(values@),
            acc.brotli == accepts(vs.subrange(0, j as int), br_name()),
            acc.gzip == accepts(vs.subrange(0, j as int), gzip_name()),
        decreases values@.len() - j,
    {
        let ghost before = acc;
        acc = scan_value(values[j].as_slice(), acc);
        proof {
            let pre = vs.subrange(0, j as int);
            let post = vs.subrange(0, j + 1);
            assert forall|nm: Seq<u8>| #[trigger] accepts(post, nm) == (accepts(pre, nm)
                || value_accepts(vs[j as int], nm)) by {
                if accepts(post, nm) {
                    let x = choose|x: int| 0 <= x < post.len() && value_accepts(#[trigger] post[x], nm);
                    if x < j {
                        assert(pre[x] == post[x]);
                    }
                }
                if accepts(pre, nm) {
                    let x = choose|x: int| 0 <= x < pre.len() && value_accepts(#[trigger] pre[x], nm);
                    assert(post[x] == pre[x]);
                }
                if value_accepts(vs[j as int], nm) {
                    assert(post[j as int] == vs[j as int]);
                }
            }
        }
        j = j + 1;
    }
    assert(vs.subrange(0, vs.len() as int) =~= vs);
    Ok(acc)
}

/// What the server believes its store holds, sampled once at start-up.
pub struct AppState {
    pub root: String,
    pub json: bool,
    pub brotli: bool,
    pub gzip: bool,
}

/// The form to serve: Brotli if both sides can, else gzip if both sides
/// can, else plain JSON if the store has it, else none. Quality weights play
/// no part.
pub open spec fn choice(
    json: bool,
    brotli: bool,
    gzip: bool,
    acc: AcceptedEncodings,
) -> Option<Representation> {
    if brotli && acc.brotli {
        Some(Representation::Brotli)
    } else if gzip && acc.gzip {
        Some(Representation::Gzip)
    } else if json {
        Some(Representation::Json)
    } else {
        None
    }
}

/// Chooses the form to serve, by fixed precedence.
pub fn choose_representation(state: &AppState, accepted: AcceptedEncodings) -> (r: Option<
    Representation,
>)
    ensures
        r == choice(state.json, state.brotli, state.gzip, accepted),
{
    if state.brotli && accepted.brotli {
        Some(Representation::Brotli)
    } else if state.gzip && accepted.gzip {
        Some(Representation::Gzip)
    } else if state.json {
        Some(Representation::Json)
    } else {
        None
    }
}

/// Why a lookup gets no shard.
#[derive(Debug, Clone, Copy, PartialEq, Eq)]
pub enum LookupError {
    /// The requested key is malformed.
    InvalidKey(KeyError),
    /// The `Accept-Encoding` header is malformed.
    InvalidHeader(Error),
    /// No stored form can be served.
    NotFound,
}

/// The HTTP status of a failed lookup.
pub open spec fn status_of(e: LookupError) -> u16 {
    match e {
        LookupError::NotFound => 404,
        _ => 400,
    }
}

impl LookupError {
    /// The HTTP status: a client error for malformed input, else not found.
    pub fn status(&self) -> (r: u16)
        ensures
            r == status_of(*self),
    {
        match self {
            LookupError::NotFound => 404,
            _ => 400,
        }
    }
}

/// The file to stream in answer to a lookup, and how it is encoded.
pub struct Lookup {
    pub representation: Representation,
    pub path: String,
}

/// Plans the answer to `GET /<raw_key>`: the key is checked first, then
/// the `Accept-Encoding` values, then a form is chosen. The path is relative
/// to the store root; nothing here touches the file system.
pub fn plan_lookup(state: &AppState, raw_key: &str, accept_values: &Vec<Vec<u8>>) -> (r: Result<
    Lookup,
    LookupError,
>)
    ensures
        match decode_result(raw_key.spec_bytes()) {
            Err(ke) => r == Err::<Lookup, LookupError>(LookupError::InvalidKey(ke)),
            Ok(k) => if !all_text(values_view(accept_values@)) {
                r == Err::<Lookup, LookupError>(LookupError::InvalidHeader(Error::ToStrError))
            } else {
                let acc = AcceptedEncodings {
                    brotli: accepts(values_view(accept_values@), br_name()),
                    gzip: accepts(values_view(accept_values@), gzip_name()),
                };
                match choice(state.json, state.brotli, state.gzip, acc) {
                    None => r == Err::<Lookup, LookupError>(LookupError::NotFound),
                    Some(rep) => r matches Ok(l) && l.representation == rep && l.path@ == shard_path(k)
                        + extension_of(rep),
                }
            },
        },
{
    let key = match Hash5::decode(raw_key) {
        Ok(k) => k,
        Err(e) => {
            return Err(LookupError::InvalidKey(e));
        },
    };
    let accepted = match get_accepted_encodings(accept_values) {
        Ok(a) => a,
        Err(e) => {
            return Err(LookupError::InvalidHeader(e));
        },
    };
    match choose_representation(state, accepted) {
        None => Err(LookupError::NotFound),
        Some(rep) => {
            let path = key.artifact_path(rep);
            Ok(Lookup { representation: rep, path })
        },
    }
}

} // verus!
