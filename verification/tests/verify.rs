use base64::Engine;

use spt_native::verify::{
    check_report, decode_manifest, finish_report, hash_hex, hash_outcome, manifest_failure, manifest_key,
    manifest_roots, missing_from_disk, missing_from_manifest, refuse_empty_manifest, ContentHasher,
    Failure, VerifyReport,
};

fn failure(path: &str, reason: &str) -> Failure {
    Failure { path: path.to_owned(), reason: reason.to_owned() }
}

fn encode_manifest(json: &str) -> Vec<u8> {
    base64::engine::general_purpose::STANDARD
        .encode(json.as_bytes())
        .into_bytes()
}

/// The manifest's entries as (path, hash) pairs, read the way the host reads them.
fn manifest_entries(raw: &[u8]) -> Result<Vec<(String, String)>, String> {
    let json = decode_manifest(raw)?;
    let value: serde_json::Value =
        serde_json::from_slice(&json).map_err(|e| format!("checks.dat JSON is invalid: {e}"))?;
    let entries = value.as_array().ok_or("checks.dat JSON is invalid: not an array")?;
    Ok(entries
        .iter()
        .map(|entry| {
            (
                entry["Path"].as_str().unwrap_or_default().to_owned(),
                entry["Hash"].as_str().unwrap_or_default().to_owned(),
            )
        })
        .collect())
}

fn xxh3_hex(data: &[u8]) -> String {
    let mut hasher = ContentHasher::new();
    hasher.update(data);
    hasher.finish_hex()
}

#[test]
fn parses_valid_manifest() {
    let raw = encode_manifest(
        r#"[{"Path":"database/templates/items.json","Hash":"06B05AB6733A618578AF5F94892F3950"}]"#,
    );
    let entries = manifest_entries(&raw).unwrap();
    assert_eq!(
        entries,
        vec![(
            "database/templates/items.json".to_owned(),
            "06B05AB6733A618578AF5F94892F3950".to_owned()
        )]
    );
}

#[test]
fn rejects_invalid_base64() {
    assert!(decode_manifest(b"!!! not base64 !!!").is_err());
}

#[test]
fn rejects_invalid_json() {
    let raw = encode_manifest("{ definitely not an array");
    assert!(manifest_entries(&raw).is_err());
}

#[test]
fn tolerates_surrounding_whitespace() {
    let mut raw = b"\n  ".to_vec();
    raw.extend(encode_manifest(r#"[{"Path":"a.json","Hash":"AA"}]"#));
    raw.extend(b"  \n");
    assert!(manifest_entries(&raw).is_ok());
}

#[test]
fn xxh3_known_answer() {
    // Cross-checked against Python xxhash and System.IO.Hashing.XxHash128 (canonical big-endian).
    assert_eq!(xxh3_hex(b"abc"), "06B05AB6733A618578AF5F94892F3950");
}

#[test]
fn multi_chunk_file_hashes_identically_to_one_shot() {
    let big: Vec<u8> = (0..200_000u32).map(|i| (i % 251) as u8).collect();

    let mut streamed = ContentHasher::new();
    for chunk in big.chunks(64 * 1024) {
        streamed.update(chunk);
    }

    assert_eq!(streamed.finish_hex(), xxh3_hex(&big));
    assert_eq!(
        streamed.finish_hex(),
        format!("{:032X}", xxhash_rust::xxh3::xxh3_128(&big))
    );
}

// Further cases.

#[test]
fn decode_manifest_names_which_layer_failed() {
    let not_utf8 = decode_manifest(&[0xff, 0xfe, 0x41]).unwrap_err();
    assert!(not_utf8.starts_with("checks.dat is not UTF-8: "), "{not_utf8}");

    let not_base64 = decode_manifest(b"@@@@").unwrap_err();
    assert!(not_base64.starts_with("checks.dat is not valid base64: "), "{not_base64}");

    assert_eq!(decode_manifest(b"  aGk=\t\n").unwrap(), b"hi".to_vec());
    assert_eq!(decode_manifest(b"").unwrap(), Vec::<u8>::new());
}

#[test]
fn hash_hex_pads_to_thirty_two_uppercase_digits() {
    assert_eq!(hash_hex(0), "00000000000000000000000000000000");
    assert_eq!(hash_hex(0xABC), "00000000000000000000000000000ABC");
    assert_eq!(hash_hex(u128::MAX), "FFFFFFFFFFFFFFFFFFFFFFFFFFFFFFFF");
}

#[test]
fn an_empty_hasher_gives_the_hash_of_nothing() {
    assert_eq!(
        ContentHasher::new().finish_hex(),
        format!("{:032X}", xxhash_rust::xxh3::xxh3_128(b""))
    );
}

#[test]
fn manifest_failure_blames_checks_dat() {
    let report = manifest_failure("manifest is empty".to_owned());

    assert!(!report.ok);
    assert_eq!(report.checked, 0);
    assert_eq!(report.failures.len(), 1);
    assert_eq!(report.failures[0].path, "checks.dat");
    assert_eq!(report.failures[0].reason, "manifest_unreadable: manifest is empty");
}

#[test]
fn from_failures_is_ok_only_without_failures() {
    let clean = VerifyReport::from_failures(Vec::new(), 3);
    assert!(clean.ok);
    assert_eq!(clean.checked, 3);

    let failed = VerifyReport::from_failures(
        vec![Failure { path: "a".to_owned(), reason: "hash_mismatch".to_owned() }],
        1,
    );
    assert!(!failed.ok);
    assert_eq!(failed.failures.len(), 1);
}

#[test]
fn hash_outcome_passes_matches_and_names_each_failure() {
    let expected = "AA".to_owned();

    assert!(hash_outcome("k".to_owned(), &expected, Ok("AA".to_owned())).is_none());

    let mismatch = hash_outcome("k".to_owned(), &expected, Ok("AB".to_owned())).unwrap();
    assert_eq!(mismatch.path, "k");
    assert_eq!(mismatch.reason, "hash_mismatch");

    let unreadable =
        hash_outcome("k".to_owned(), &expected, Err("permission denied".to_owned())).unwrap();
    assert_eq!(unreadable.reason, "io_error: permission denied");

    let extra = missing_from_manifest("database/extra.json".to_owned());
    assert_eq!(extra.path, "database/extra.json");
    assert_eq!(extra.reason, "missing_from_manifest");
}

#[test]
fn missing_from_disk_lists_unwalked_keys_in_manifest_order() {
    let keys = vec![
        "database/deleted.json".to_owned(),
        "database/globals.json".to_owned(),
        "configs/gone.json".to_owned(),
    ];
    let walked = vec!["database/globals.json".to_owned(), "database/extra.json".to_owned()];

    let failures = missing_from_disk(&keys, &walked);

    let paths: Vec<&str> = failures.iter().map(|f| f.path.as_str()).collect();
    assert_eq!(paths, vec!["database/deleted.json", "configs/gone.json"]);
    assert!(failures.iter().all(|f| f.reason == "missing_from_disk"));
}

#[test]
fn manifest_roots_are_the_distinct_top_level_entries_in_first_seen_order() {
    let keys = vec![
        "database/globals.json".to_owned(),
        "configs/core.json".to_owned(),
        "database/templates/items.json".to_owned(),
        "top.json".to_owned(),
    ];

    assert_eq!(manifest_roots(&keys), vec!["database", "configs", "top.json"]);
    assert!(manifest_roots(&[]).is_empty());
}

#[test]
fn manifest_key_uses_forward_slashes() {
    assert_eq!(manifest_key("database\\locales\\server\\en.json"), "database/locales/server/en.json");
    assert_eq!(manifest_key("configs/core.json"), "configs/core.json");
}

#[test]
fn empty_manifest_fails_instead_of_passing_vacuously() {
    let report = refuse_empty_manifest(0).unwrap();
    assert!(!report.ok);
    assert_eq!(report.checked, 0);
    assert_eq!(report.failures[0].path, "checks.dat");
    assert_eq!(report.failures[0].reason, "manifest_unreadable: manifest is empty");

    assert!(refuse_empty_manifest(1).is_none());
}

#[test]
fn finish_report_sorts_every_failure_by_path() {
    let outcomes = vec![
        Some(failure("database/z.json", "hash_mismatch")),
        None,
        Some(failure("database/extra.json", "missing_from_manifest")),
        None,
        Some(failure("configs/core.json", "io_error: denied")),
    ];
    let missing = vec![failure("database/deleted.json", "missing_from_disk")];

    let report = finish_report(outcomes, missing, 5);

    assert!(!report.ok);
    assert_eq!(report.checked, 5);
    let paths: Vec<&str> = report.failures.iter().map(|f| f.path.as_str()).collect();
    assert_eq!(
        paths,
        vec!["configs/core.json", "database/deleted.json", "database/extra.json", "database/z.json"]
    );
    assert_eq!(report.failures[1].reason, "missing_from_disk");
}

#[test]
fn finish_report_keeps_equal_paths_in_the_order_they_came() {
    let outcomes = vec![Some(failure("b", "first")), Some(failure("a", "only"))];
    let missing = vec![failure("b", "second"), failure("ab", "prefix")];

    let report = finish_report(outcomes, missing, 2);

    let listed: Vec<(&str, &str)> = report
        .failures
        .iter()
        .map(|f| (f.path.as_str(), f.reason.as_str()))
        .collect();
    assert_eq!(listed, vec![("a", "only"), ("ab", "prefix"), ("b", "first"), ("b", "second")]);
}

#[test]
fn finish_report_of_a_clean_tree_is_ok() {
    let report = finish_report(vec![None, None], Vec::new(), 2);
    assert!(report.ok);
    assert_eq!(report.checked, 2);
    assert!(report.failures.is_empty());
}

#[test]
fn finish_report_orders_by_bytes_like_str() {
    let mut paths = vec!["Z", "a", "\u{00e9}", "\u{00e9}a", "_", "aa"];
    let outcomes: Vec<Option<Failure>> =
        paths.iter().map(|p| Some(failure(p, "hash_mismatch"))).collect();

    let report = finish_report(outcomes, Vec::new(), 6);

    paths.sort();
    let got: Vec<&str> = report.failures.iter().map(|f| f.path.as_str()).collect();
    assert_eq!(got, paths);
}

#[test]
fn check_report_gives_every_walked_and_listed_file_its_verdict() {
    let manifest = vec![
        ("database/globals.json".to_owned(), "AA".to_owned()),
        ("database/items.json".to_owned(), "BB".to_owned()),
        ("database/deleted.json".to_owned(), "CC".to_owned()),
        ("configs/core.json".to_owned(), "DD".to_owned()),
    ];
    let walked = vec![
        "database/globals.json".to_owned(),
        "database/items.json".to_owned(),
        "database/extra.json".to_owned(),
        "configs/core.json".to_owned(),
    ];
    let reads = vec![
        Some(Ok("AA".to_owned())),
        Some(Ok("XX".to_owned())),
        None,
        Some(Err("denied".to_owned())),
    ];

    let report = check_report(&manifest, &walked, reads);

    assert!(!report.ok);
    assert_eq!(report.checked, 4);
    let listed: Vec<(&str, &str)> = report
        .failures
        .iter()
        .map(|f| (f.path.as_str(), f.reason.as_str()))
        .collect();
    assert_eq!(
        listed,
        vec![
            ("configs/core.json", "io_error: denied"),
            ("database/deleted.json", "missing_from_disk"),
            ("database/extra.json", "missing_from_manifest"),
            ("database/items.json", "hash_mismatch"),
        ]
    );
}

#[test]
fn check_report_of_a_clean_tree_is_ok() {
    let manifest = vec![("a.json".to_owned(), "AA".to_owned())];
    let report = check_report(&manifest, &["a.json".to_owned()], vec![Some(Ok("AA".to_owned()))]);
    assert!(report.ok);
    assert_eq!(report.checked, 1);
}
