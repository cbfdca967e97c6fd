use hibp_store::{
    choose_representation, classify_token, get_accepted_encodings, plan_lookup,
    AcceptedEncodings, AppState, EncodingToken, Error, KeyError, LookupError, Representation,
};

fn state(json: bool, brotli: bool, gzip: bool) -> AppState {
    AppState { root: String::from("dist"), json, brotli, gzip }
}

fn values(vs: &[&str]) -> Vec<Vec<u8>> {
    vs.iter().map(|v| v.as_bytes().to_vec()).collect()
}

fn accepted(vs: &[&str]) -> AcceptedEncodings {
    get_accepted_encodings(&values(vs)).unwrap()
}

#[test]
fn reads_both_encodings() {
    assert_eq!(accepted(&["gzip, deflate, br"]), AcceptedEncodings { brotli: true, gzip: true });
    assert_eq!(accepted(&["br"]), AcceptedEncodings { brotli: true, gzip: false });
    assert_eq!(accepted(&[]), AcceptedEncodings { brotli: false, gzip: false });
    assert_eq!(accepted(&["identity", "gzip"]), AcceptedEncodings { brotli: false, gzip: true });
}

#[test]
fn ignores_weights_and_unknown_tokens() {
    assert_eq!(
        accepted(&["br;q=0.1, gzip;q=1.0"]),
        AcceptedEncodings { brotli: true, gzip: true }
    );
    assert_eq!(accepted(&["brotli, gzipped, *"]), AcceptedEncodings::default());
    assert_eq!(accepted(&["  br\t,gzip ;q=1"]), AcceptedEncodings { brotli: true, gzip: false });
    assert_eq!(accepted(&["br;level=1"]), AcceptedEncodings::default());
    assert_eq!(accepted(&["GZIP"]), AcceptedEncodings::default());
}

#[test]
fn rejects_values_that_are_not_text() {
    let bad = vec![b"gzip".to_vec(), vec![b'b', b'r', 0xFF]];
    assert_eq!(get_accepted_encodings(&bad), Err(Error::ToStrError));
    let ctl = vec![vec![b'b', b'r', 0x01]];
    assert_eq!(get_accepted_encodings(&ctl), Err(Error::ToStrError));
}

#[test]
fn classifies_tokens() {
    let v = b"x, br ;q=1, gzip;q=0";
    assert_eq!(classify_token(v, 0, 1), EncodingToken::Unrecognized);
    assert_eq!(classify_token(v, 2, 4), EncodingToken::Unrecognized);
    assert_eq!(classify_token(v, 2, 5), EncodingToken::Brotli);
    assert_eq!(classify_token(v, 11, 20), EncodingToken::GeneralCompressed);
}

#[test]
fn negotiation_precedence() {
    let both = AcceptedEncodings { brotli: true, gzip: true };
    assert_eq!(choose_representation(&state(true, true, true), both), Some(Representation::Brotli));
    assert_eq!(choose_representation(&state(true, false, true), both), Some(Representation::Gzip));
    assert_eq!(choose_representation(&state(true, false, false), both), Some(Representation::Json));
    assert_eq!(choose_representation(&state(false, false, false), both), None);
    let none = AcceptedEncodings::default();
    assert_eq!(choose_representation(&state(true, true, true), none), Some(Representation::Json));
    assert_eq!(choose_representation(&state(false, true, true), none), None);
}

#[test]
fn lookup_negotiates_from_headers() {
    let hv = values(&["gzip, br"]);
    let l = plan_lookup(&state(true, true, true), "ABCDE", &hv).ok().unwrap();
    assert_eq!(l.representation, Representation::Brotli);
    assert_eq!(l.path, "A/B/C/D/E.json.br");
    let l = plan_lookup(&state(true, false, true), "ABCDE", &hv).ok().unwrap();
    assert_eq!(l.path, "A/B/C/D/E.json.gz");
    let l = plan_lookup(&state(true, false, false), "ABCDE", &hv).ok().unwrap();
    assert_eq!(l.path, "A/B/C/D/E.json");
    assert_eq!(l.representation.content_encoding(), None);
    let e = plan_lookup(&state(false, false, false), "ABCDE", &hv).err().unwrap();
    assert_eq!(e, LookupError::NotFound);
    assert_eq!(e.status(), 404);
}

#[test]
fn lookup_gzip_only_store() {
    let hv = values(&["gzip"]);
    let l = plan_lookup(&state(false, false, true), "abcde", &hv).ok().unwrap();
    assert_eq!(l.representation, Representation::Gzip);
    assert_eq!(l.representation.content_encoding(), Some("gzip"));
    assert_eq!(l.path, "A/B/C/D/E.json.gz");
}

#[test]
fn lookup_rejects_malformed_keys_first() {
    let bad_header = vec![vec![0xFFu8]];
    let e = plan_lookup(&state(true, true, true), "ABCD", &bad_header).err().unwrap();
    assert_eq!(e, LookupError::InvalidKey(KeyError::InvalidLength { len: 4 }));
    assert_eq!(e.status(), 400);
    let e = plan_lookup(&state(true, true, true), "ABCDEG", &values(&[])).err().unwrap();
    assert_eq!(e, LookupError::InvalidKey(KeyError::InvalidLength { len: 6 }));
    assert_eq!(e.status(), 400);
    let e = plan_lookup(&state(true, true, true), "ABCDG", &values(&[])).err().unwrap();
    assert_eq!(e, LookupError::InvalidKey(KeyError::InvalidChar { byte: b'G' }));
    assert_eq!(e.status(), 400);
}

#[test]
fn lookup_rejects_malformed_header() {
    let e = plan_lookup(&state(true, true, true), "ABCDE", &vec![vec![0x80u8]]).err().unwrap();
    assert_eq!(e, LookupError::InvalidHeader(Error::ToStrError));
    assert_eq!(e.status(), 400);
}
