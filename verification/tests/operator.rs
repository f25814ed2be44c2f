use garret::fsck::{FsckReport, FsckRow, FsckSizeMismatch};
use garret::narinfo::SigningKeyFile;
use garret::operator::{
    delete_lines, fsck_lines, fsck_ok, gc_lines, generate_key, is_tellable, key_file,
    parse_duration, prune_cutoff, pin_expiry, show_key, unpin_outcome,
};

#[test]
fn durations_parse_or_fail_loudly() {
    assert_eq!(parse_duration("90s").unwrap(), 90);
    assert_eq!(parse_duration("30m").unwrap(), 1800);
    assert_eq!(parse_duration("36h").unwrap(), 129600);
    assert_eq!(parse_duration("30d").unwrap(), 2_592_000);
    for bad in ["", "d", "30", "-1d", "0h", "1w"] {
        assert!(parse_duration(bad).is_err(), "{bad:?} should be rejected");
    }
    assert_eq!(
        parse_duration("1w").unwrap_err(),
        "bad duration \"1w\" — use e.g. 90s, 30m, 36h, 30d"
    );
}

#[test]
fn a_pin_ends_when_its_duration_is_over() {
    assert_eq!(pin_expiry(None, 1000), Ok(None));
    assert_eq!(pin_expiry(Some("90s"), 1000), Ok(Some(1090)));
    assert!(pin_expiry(Some("soon"), 1000).is_err());
    assert!(is_tellable("90s", 1000));
    assert!(!is_tellable("9223372036854775807d", 0));
    assert!(!is_tellable("9223372036854775807s", 1));
}

#[test]
fn a_generated_key_is_read_back() {
    let key = generate_key("cache-1");
    let text = key_file(&key);
    assert!(text.starts_with("cache-1:") && text.ends_with("\n"));
    let back = SigningKeyFile::parse(&text).unwrap();
    assert_eq!(back.name, "cache-1");
    assert_eq!(back.seed, key.seed);
    assert_eq!(show_key(&text), Ok(key.public_key()));
    assert_ne!(generate_key("cache-1").seed, key.seed);
    let dalek = ed25519_dalek::SigningKey::from_bytes(&key.seed);
    let public = base64::Engine::encode(
        &base64::engine::general_purpose::STANDARD,
        dalek.verifying_key().to_bytes(),
    );
    assert_eq!(key.public_key(), format!("cache-1:{public}"));
    assert_eq!(
        show_key("nothing"),
        Err("malformed key file: expected `name:base64`".into())
    );
    assert_eq!(show_key("k:!"), Err("key is not valid base64".into()));
    assert_eq!(show_key("k:AAAA"), Err("key is too short".into()));
}

#[test]
fn replies_are_told_in_words() {
    assert_eq!(gc_lines(2, "1.0 KiB", false), ["evicted 2 object(s), freeing 1.0 KiB"]);
    assert_eq!(gc_lines(0, "0 B", true).len(), 2);
    assert_eq!(
        delete_lines(1, 5, &vec!["x".into(), "y".into()]),
        ["deleted 1 object(s), 5 byte(s) freed", "not in the cache: x, y"]
    );
    assert_eq!(unpin_outcome(true), Ok("unpinned".into()));
    assert_eq!(unpin_outcome(false), Err("no pin has that name".into()));
}

fn report() -> FsckReport {
    FsckReport {
        dangling: vec![],
        size_mismatches: vec![],
        orphans: vec!["nar/x.nar.zst".into()],
        repaired: 0,
        quiesced: false,
        quiesce_drained: false,
    }
}

#[test]
fn orphans_alone_are_no_fault() {
    assert!(fsck_ok(&report()));
    assert_eq!(
        fsck_lines(&report(), false),
        [
            "dangling rows: none",
            "size mismatches: none",
            "orphan blobs (1), informational only — handled by the orphan sweep:",
            "  nar/x.nar.zst",
        ]
    );
}

#[test]
fn a_report_names_every_row() {
    let mut bad = report();
    bad.orphans = vec![];
    bad.dangling = vec![FsckRow {
        store_path_hash: "h".into(),
        name: "n".into(),
    }];
    bad.size_mismatches = vec![FsckSizeMismatch {
        store_path_hash: "i".into(),
        name: "m".into(),
        db_size: 5,
        s3_size: 9,
    }];
    bad.repaired = 2;
    bad.quiesced = true;
    assert!(!fsck_ok(&bad));
    assert_eq!(
        fsck_lines(&bad, true),
        [
            "dangling rows (1):",
            "  h n",
            "size mismatches (1):",
            "  i m (db 5 bytes, s3 9 bytes)",
            "orphan blobs: none",
            "repaired 2 row(s)",
            "quiesce timed out waiting for uploads to drain — no repair was performed",
        ]
    );
}

#[test]
fn cutoffs_are_dates_or_ages() {
    assert_eq!(prune_cutoff("1970-01-01", 5).unwrap(), 0);
    assert_eq!(prune_cutoff("2025-08-06", 5).unwrap(), 1_754_438_400);
    assert_eq!(prune_cutoff("2000-02-29", 5).unwrap(), 951_782_400);
    assert_eq!(prune_cutoff("2024-03-01", 5).unwrap(), 1_709_251_200);
    assert_eq!(prune_cutoff("1969-12-31", 5).unwrap(), -86_400);
    assert_eq!(prune_cutoff("30d", 10_000_000).unwrap(), 10_000_000 - 2_592_000);
    for bad in [
        "", "30", "1w", "2023-02-29", "1900-02-29", "2025-13-01", "2025-00-10", "2025-04-31",
        "2025-8-6", "2025/08/06", "+025-08-06", "9223372036854775807d",
    ] {
        assert_eq!(
            prune_cutoff(bad, 5).unwrap_err(),
            format!("bad cutoff {bad:?} — use a date as in 2025-08-06, or an age as in 30d"),
        );
    }
}
