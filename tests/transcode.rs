use std::io::Read;

use hibp_store::{
    build_shard, check_completeness, skeleton_directories, transcode, BuildError, ByteTotals,
    KeyError, OutputFlags, Password, RangeFileError, DIRECTORY_COUNT, KEYSPACE,
};

const ALL: OutputFlags = OutputFlags { json: true, gzip: true, brotli: true };

fn gunzip(b: &[u8]) -> Vec<u8> {
    let mut out = Vec::new();
    flate2::read::GzDecoder::new(b).read_to_end(&mut out).unwrap();
    out
}

fn unbrotli(b: &[u8]) -> Vec<u8> {
    let mut out = Vec::new();
    brotli::Decompressor::new(b, 4096).read_to_end(&mut out).unwrap();
    out
}

#[test]
fn all_three_artifacts_hold_the_same_records() {
    let zeros = "0".repeat(35);
    let effs = "F".repeat(35);
    let content = format!("{zeros}:3\n{effs}:1\n");
    let shard = build_shard("ABCDE", content.as_bytes(), ALL).unwrap();
    assert_eq!(shard.key.path(), "A/B/C/D/E");
    let expected = format!(
        r#"[{{"hash":"ABCDE{zeros}","count":3}},{{"hash":"ABCDE{effs}","count":1}}]"#
    );
    let json = shard.artifacts.json.unwrap();
    let gz = shard.artifacts.gzip.unwrap();
    let br = shard.artifacts.brotli.unwrap();
    assert_ne!(gz, json);
    assert_ne!(br, json);
    for bytes in [json.clone(), gunzip(&gz), unbrotli(&br)] {
        assert_eq!(bytes, expected.as_bytes());
        let v: serde_json::Value = serde_json::from_slice(&bytes).unwrap();
        let items = v.as_array().unwrap();
        assert_eq!(items.len(), 2);
        assert_eq!(items[0]["hash"].as_str().unwrap(), format!("ABCDE{zeros}"));
        assert_eq!(items[0]["count"].as_u64().unwrap(), 3);
        assert_eq!(items[1]["hash"].as_str().unwrap(), format!("ABCDE{effs}"));
        assert_eq!(items[1]["count"].as_u64().unwrap(), 1);
    }
}

#[test]
fn only_requested_artifacts_are_made() {
    let flags = OutputFlags { json: false, gzip: true, brotli: false };
    let shard = build_shard("00000", b"AA:1\n", flags).unwrap();
    assert!(shard.artifacts.json.is_none());
    assert!(shard.artifacts.brotli.is_none());
    let gz = shard.artifacts.gzip.unwrap();
    assert_eq!(gunzip(&gz), br#"[{"hash":"00000AA","count":1}]"#.to_vec());
}

#[test]
fn lower_case_file_name_gives_upper_case_hashes() {
    let shard = build_shard("abcde", b"11:2", ALL).unwrap();
    assert_eq!(shard.key.key(), "ABCDE");
    assert_eq!(
        shard.artifacts.json.unwrap(),
        br#"[{"hash":"ABCDE11","count":2}]"#.to_vec()
    );
}

#[test]
fn compression_is_deterministic() {
    let recs = vec![Password { hash: b"ABCDE00".to_vec(), count: 9 }];
    let a = transcode(&recs, ALL).ok().unwrap();
    let b = transcode(&recs, ALL).ok().unwrap();
    assert_eq!(a.gzip, b.gzip);
    assert_eq!(a.brotli, b.brotli);
}

#[test]
fn bad_file_name_fails_the_shard() {
    assert!(matches!(
        build_shard("ABCD", b"AA:1\n", ALL),
        Err(BuildError::InvalidKey(KeyError::InvalidLength { len: 4 }))
    ));
    assert!(matches!(
        build_shard("ABCDX", b"AA:1\n", ALL),
        Err(BuildError::InvalidKey(KeyError::InvalidChar { byte: b'X' }))
    ));
}

#[test]
fn bad_line_fails_the_shard() {
    assert!(matches!(
        build_shard("ABCDE", b"AA:1\nBB\n", ALL),
        Err(BuildError::Malformed(RangeFileError::MissingSeparator { index: 1 }))
    ));
    assert!(matches!(
        build_shard("ABCDE", b"AA:one\n", ALL),
        Err(BuildError::Malformed(RangeFileError::InvalidCount { index: 0 }))
    ));
}

#[test]
fn strict_build_needs_every_key() {
    assert_eq!(KEYSPACE, 16usize.pow(5));
    assert_eq!(check_completeness(true, 1_048_576), Ok(()));
    assert_eq!(
        check_completeness(true, 1_048_575),
        Err(BuildError::Incomplete { found: 1_048_575 })
    );
    assert_eq!(
        check_completeness(true, 1_048_577),
        Err(BuildError::Incomplete { found: 1_048_577 })
    );
    assert_eq!(check_completeness(false, 3), Ok(()));
}

#[test]
fn skeleton_has_every_four_digit_prefix() {
    let dirs = skeleton_directories();
    assert_eq!(dirs.len(), DIRECTORY_COUNT);
    assert_eq!(dirs[0], "0/0/0/0");
    assert_eq!(dirs[255], "0/0/F/F");
    assert_eq!(dirs[0xA1B2], "A/1/B/2");
    assert_eq!(dirs[65535], "F/F/F/F");
    let unique: std::collections::HashSet<&String> = dirs.iter().collect();
    assert_eq!(unique.len(), DIRECTORY_COUNT);
}

#[test]
fn totals_add_up_in_any_order() {
    let a = ByteTotals { json: 10, gzip: 4, brotli: 3 };
    let b = ByteTotals { json: 7, gzip: 2, brotli: 1 };
    let c = ByteTotals { json: u64::MAX, gzip: 0, brotli: 5 };
    assert_eq!(a.merged(&b), b.merged(&a));
    assert_eq!(a.merged(&b).merged(&c), a.merged(&b.merged(&c)));
    assert_eq!(a.merged(&b), ByteTotals { json: 17, gzip: 6, brotli: 4 });
    assert_eq!(a.merged(&c).json, 9);
    assert_eq!(a.merged(&ByteTotals::zero()), a);
}

#[test]
fn totals_of_one_shard() {
    let flags = OutputFlags { json: true, gzip: false, brotli: true };
    let shard = build_shard("ABCDE", b"AA:1", flags).unwrap();
    let t = ByteTotals::of_shard(&shard.artifacts);
    assert_eq!(t.json, br#"[{"hash":"ABCDEAA","count":1}]"#.len() as u64);
    assert_eq!(t.gzip, 0);
    assert_eq!(t.brotli, shard.artifacts.brotli.unwrap().len() as u64);
}
