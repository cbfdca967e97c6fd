use hibp_store::{format_prefix_to_dirs, hex, Hash5, KeyError, Representation};

#[test]
fn decode_upper_case_key() {
    let h = Hash5::decode("ABCDE").unwrap();
    assert_eq!(h.key(), "ABCDE");
    assert_eq!(h.path(), "A/B/C/D/E");
}

#[test]
fn decode_canonicalizes_case() {
    let lower = Hash5::decode("abcde").unwrap();
    let mixed = Hash5::decode("aBcDe").unwrap();
    let upper = Hash5::decode("ABCDE").unwrap();
    assert_eq!(lower.key(), "ABCDE");
    assert_eq!(lower.path(), upper.path());
    assert_eq!(mixed.path(), upper.path());
    let again = Hash5::decode(lower.key()).unwrap();
    assert_eq!(again.path(), lower.path());
}

#[test]
fn decode_digits_and_letters() {
    let h = Hash5::decode("0f9A1").unwrap();
    assert_eq!(h.key(), "0F9A1");
    assert_eq!(h.path(), "0/F/9/A/1");
}

#[test]
fn decode_rejects_short_key() {
    assert_eq!(Hash5::decode("ABCD").err(), Some(KeyError::InvalidLength { len: 4 }));
}

#[test]
fn decode_rejects_long_key() {
    assert_eq!(Hash5::decode("ABCDEG").err(), Some(KeyError::InvalidLength { len: 6 }));
    assert_eq!(Hash5::decode("").err(), Some(KeyError::InvalidLength { len: 0 }));
}

#[test]
fn decode_rejects_non_hex() {
    assert_eq!(Hash5::decode("ABCDG").err(), Some(KeyError::InvalidChar { byte: b'G' }));
    assert_eq!(Hash5::decode("xBCDZ").err(), Some(KeyError::InvalidChar { byte: b'x' }));
    assert_eq!(Hash5::decode("AB/DE").err(), Some(KeyError::InvalidChar { byte: b'/' }));
}

#[test]
fn decode_counts_bytes_not_characters() {
    assert_eq!(Hash5::decode("ABC\u{e9}").err(), Some(KeyError::InvalidChar { byte: 0xC3 }));
}

#[test]
fn hex_maps_both_cases_to_upper() {
    assert_eq!(hex(b'0'), "0");
    assert_eq!(hex(b'9'), "9");
    assert_eq!(hex(b'a'), "A");
    assert_eq!(hex(b'F'), "F");
    assert_eq!(hex(b'f'), "F");
}

#[test]
fn format_prefix_to_dirs_joins_with_slashes() {
    assert_eq!(format_prefix_to_dirs("ABCDE"), "A/B/C/D/E");
    assert_eq!(format_prefix_to_dirs("A"), "A");
    assert_eq!(format_prefix_to_dirs(""), "");
}

#[test]
fn artifact_paths_and_encodings() {
    let h = Hash5::decode("00a1f").unwrap();
    assert_eq!(h.artifact_path(Representation::Json), "0/0/A/1/F.json");
    assert_eq!(h.artifact_path(Representation::Gzip), "0/0/A/1/F.json.gz");
    assert_eq!(h.artifact_path(Representation::Brotli), "0/0/A/1/F.json.br");
    assert_eq!(Representation::Json.content_encoding(), None);
    assert_eq!(Representation::Gzip.content_encoding(), Some("gzip"));
    assert_eq!(Representation::Brotli.content_encoding(), Some("br"));
}
