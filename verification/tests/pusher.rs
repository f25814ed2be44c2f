use garret::auth::Subject;
use garret::common::{
    hash_of_store_path, take_preamble, to_framed, Preamble, MAX_PREAMBLE,
};
use garret::config::IssuerConfig;
use garret::db::{get_object, insert_object, Db, DbError, Object};
use garret::fsck::{
    classify_rows, is_drained, run, FsckOptions, FsckRow, FsckSizeMismatch,
};
use garret::gc::orphan_keys;
use garret::inflight::{InFlight, Kind};
use garret::metrics::status_class;
use garret::narinfo::SigningKeyFile;
use garret::nix_base32::encode;
use garret::pusher::{
    bearer, build_object, fresh_error, internal_error, login_issuer, record_upload, store_basename,
    sweep_due, upload, BadPreamble, RecordError, Slots, Verdict,
};
use garret::storage::Blob;
use garret::table::Table;
use garret::verify::{VerifiedNar, SCRATCH, WINDOW_LOG_MAX};
use sha2::Digest;

const H: &str = "0123456789abcdfghijklmnpqrsvwxyz";
const DEP: &str = "zyxwvsrqpnmlkjihgfdcba9876543210";

#[test]
fn only_the_first_claimer_wins_and_the_claim_is_released() {
    let mut set = InFlight::new();
    let first = set
        .claim("abc", Kind::Upload)
        .ok()
        .expect("first claim should succeed");
    assert_eq!(set.claim("abc", Kind::Upload).err(), Some(Kind::Upload));
    assert!(set.contains("abc"));
    // A different path is unaffected.
    assert!(set.claim("def", Kind::Upload).is_ok());

    set.release(first);
    assert!(!set.contains("abc"));
    assert!(set.claim("abc", Kind::Upload).is_ok());
}

#[test]
fn a_deletion_turns_an_upload_away_and_is_not_counted_as_one() {
    let mut set = InFlight::new();
    let deleting = set.claim("abc", Kind::Delete).unwrap();
    assert_eq!(set.claim("abc", Kind::Upload).err(), Some(Kind::Delete));
    assert_eq!(set.uploads(), 0, "a deletion counted as an upload");

    set.release(deleting);
    let _uploading = set.claim("abc", Kind::Upload).unwrap();
    assert_eq!(set.claim("abc", Kind::Delete).err(), Some(Kind::Upload));
    assert_eq!(set.uploads(), 1);
}

#[test]
fn a_dropped_claim_cannot_wedge_the_path() {
    let mut set = InFlight::new();
    let claim = set.claim("abc", Kind::Delete).unwrap();
    set.release(claim);
    assert!(!set.contains("abc"));
}

#[test]
fn deletions_hold_what_they_remove_and_leave_uploads_alone() {
    let mut set = InFlight::new();
    let _uploading = set.claim("up", Kind::Upload).unwrap();
    let claims = set.claim_deletions(&vec!["a".into(), "up".into(), "a".into(), "b".into()]);
    assert_eq!(claims.len(), 2);
    assert_eq!(set.claim("a", Kind::Upload).err(), Some(Kind::Delete));
    assert_eq!(set.claim("up", Kind::Upload).err(), Some(Kind::Upload));
    assert_eq!(set.uploads(), 1);
    set.release_all(claims);
    assert!(!set.contains("a") && !set.contains("b"));
    assert!(set.contains("up"));
}

#[test]
fn quiescing_rejects_a_push_before_anything_else() {
    let mut slots = Slots::new(1);
    let mut in_flight = InFlight::new();
    let verdict = upload(true, &"a".repeat(32), false, &mut slots, &mut in_flight);
    assert_eq!(verdict.answer("x").status, 503);
    assert_eq!(verdict.skipped(), Some("quiescing"));
    assert_eq!(slots.taken, 0);
    assert!(is_drained(&in_flight));
}

#[test]
fn a_non_quiescing_push_reaches_the_idempotency_check() {
    let mut slots = Slots::new(1);
    let mut in_flight = InFlight::new();
    let verdict = upload(false, &"a".repeat(32), true, &mut slots, &mut in_flight);
    let answer = verdict.answer("x");
    assert_eq!((answer.status, answer.text.as_str()), (200, "exists"));
}

#[test]
fn uploads_are_shed_skipped_or_accepted() {
    let mut slots = Slots::new(2);
    let mut in_flight = InFlight::new();
    let a = "a".repeat(32);
    let first = upload(false, &a, false, &mut slots, &mut in_flight);
    let Verdict::Accepted(claim) = first else {
        panic!("the first upload is accepted")
    };
    let again = upload(false, &a, false, &mut slots, &mut in_flight);
    assert_eq!(again.answer(&a).text, "in-progress");
    assert_eq!(slots.taken, 1);
    let b = "b".repeat(32);
    assert!(matches!(
        upload(false, &b, false, &mut slots, &mut in_flight),
        Verdict::Accepted(_)
    ));
    let c = "c".repeat(32);
    let shed = upload(false, &c, false, &mut slots, &mut in_flight);
    let answer = shed.answer(&c);
    assert_eq!(answer.status, 429);
    assert!(answer.retry_after);
    in_flight.release(claim);
    slots.give_back();
    let held = in_flight.claim(&c, Kind::Delete).unwrap();
    let deleting = upload(false, &c, false, &mut slots, &mut in_flight);
    assert_eq!(deleting.answer(&c).status, 503);
    assert_eq!(deleting.skipped(), Some("deleting"));
    in_flight.release(held);
}

#[test]
fn a_malformed_url_hash_is_refused_before_the_body_is_read() {
    for hash in ["a".repeat(31), "e".repeat(32)] {
        let mut slots = Slots::new(1);
        let mut in_flight = InFlight::new();
        let verdict = upload(false, &hash, false, &mut slots, &mut in_flight);
        let answer = verdict.answer(&hash);
        assert_eq!(answer.status, 400, "{hash}");
        assert_eq!(answer.text, format!("{hash:?} is not a store path hash"));
        assert_eq!(slots.taken, 0);
    }
}

/// What the client sends for a real input-addressed path.
fn preamble() -> Preamble {
    Preamble {
        store_path: format!("/nix/store/{H}-hello-2.12.1"),
        nar_hash: "sha256-47DEQpj8HBSa+/TImW+5JCeuQeRkm5NMpJWZG3hSuFU=".into(),
        nar_size: 4096,
        references: vec![
            format!("/nix/store/{DEP}-glibc-2.40-66"),
            format!("/nix/store/{H}-hello-2.12.1"),
        ],
        deriver: Some(format!("/nix/store/{DEP}-hello-2.12.1.drv")),
        ca: None,
    }
}

fn build(p: &Preamble) -> Result<Object, BadPreamble> {
    build_object(H, p, "/nix/store", &Subject("test#user".into()))
}

#[test]
fn a_well_formed_preamble_becomes_an_object_of_basenames() {
    let mut p = preamble();
    p.ca = Some(format!("fixed:r:sha256:{}", "0".repeat(52)));
    let object = build_object(H, &p, "/nix/store", &Subject("test#user".into())).unwrap();
    assert_eq!(object.name, "hello-2.12.1");
    // Sorted, as the signed fingerprint requires.
    assert_eq!(
        object.references,
        [format!("{H}-hello-2.12.1"), format!("{DEP}-glibc-2.40-66")]
    );
    assert_eq!(
        object.deriver.as_deref(),
        Some(format!("{DEP}-hello-2.12.1.drv").as_str())
    );
    assert_eq!(
        object.nar_hash,
        "sha256:0mdqa9w1p6cmli6976v4wi0sw9r4p5prkj7lzfd1877wk11c9c73"
    );
    assert_eq!(object.pushed_by.as_deref(), Some("test#user"));
}

#[test]
fn a_malformed_preamble_is_refused_before_anything_is_stored() {
    let with = |break_rule: fn(&mut Preamble)| {
        let mut p = preamble();
        break_rule(&mut p);
        p
    };
    let cases = [
        (
            "URL hash only as a substring",
            with(|p| {
                p.store_path = format!("/nix/store/{DEP}-hello-{H}");
            }),
        ),
        (
            "another store dir",
            with(|p| {
                p.store_path = format!("/other/store/{H}-hello-2.12.1");
            }),
        ),
        (
            "name outside nix's charset",
            with(|p| {
                p.store_path = format!("/nix/store/{H}-héllo");
            }),
        ),
        (
            "reference with a non-ASCII hash",
            with(|p| {
                p.references = vec![format!("/nix/store/{}é-x", "a".repeat(31))];
            }),
        ),
        (
            "deriver with a newline",
            with(|p| {
                p.deriver = Some(format!("/nix/store/{DEP}-x.drv\nSig: forged:AAAA"));
            }),
        ),
        (
            "ca with a newline",
            with(|p| {
                p.ca = Some("fixed:r:sha256:x\nSig: forged:AAAA".into());
            }),
        ),
        (
            "no hash of this kind",
            with(|p| {
                p.nar_hash = "md5:abc".into();
            }),
        ),
    ];
    for (case, p) in cases {
        assert!(build(&p).is_err(), "{case}");
    }
    let mut p = preamble();
    p.store_path = "/x".into();
    assert_eq!(
        build(&p).unwrap_err().message(&p, "/nix/store", H),
        format!("store path \"/x\" is not /nix/store/{H}-<name>")
    );
    p = preamble();
    p.ca = Some("a\nb".into());
    assert_eq!(
        build(&p).unwrap_err().message(&p, "/nix/store", H),
        "ca \"a\\nb\" is not a single line"
    );
}

#[test]
fn only_store_paths_have_a_store_basename() {
    let path = format!("/nix/store/{H}-x");
    assert_eq!(
        store_basename(&path, "/nix/store"),
        Some(format!("{H}-x").as_str())
    );
    assert_eq!(store_basename(&path, "/nix"), None);
    assert_eq!(store_basename(&format!("/nix/store/{H}"), "/nix/store"), None);
}

#[test]
fn an_internal_error_hides_its_chain_behind_a_logged_id() {
    let error = fresh_error();
    assert_eq!(error.message, format!("internal error (id {})", error.id));
    assert_eq!(error.id.len(), 16);
    assert_eq!(
        internal_error(0xabc).message,
        "internal error (id 0000000000000abc)"
    );
}

#[test]
fn an_upload_is_recorded_signed() {
    let mut db = Db::new();
    let keys = vec![SigningKeyFile {
        name: "k-1".into(),
        seed: [7; 32],
    }];
    let object = build(&preamble()).unwrap();
    record_upload(&mut db, object, &[1; 32], 9, "/nix/store", &keys, 100).unwrap();
    let got = get_object(&db, H).unwrap();
    assert_eq!(got.file_size, 9);
    assert_eq!(got.file_hash, format!("sha256:{}", encode(&[1; 32])));
    assert!(got.sigs[0].starts_with("k-1:"));

    let unsigned = build(&preamble()).unwrap();
    assert!(matches!(
        record_upload(&mut db, unsigned, &[1; 32], 9, "/nix/store", &vec![], 100),
        Err(RecordError::NoKeys)
    ));
    let mut twice = build(&preamble()).unwrap();
    twice.references = vec!["x".into(), "x".into()];
    assert!(matches!(
        record_upload(&mut db, twice, &[1; 32], 9, "/nix/store", &keys, 100),
        Err(RecordError::Refused(DbError::DuplicateReference))
    ));
}

#[test]
fn tokens_come_in_the_authorization_header() {
    assert_eq!(bearer(Some("Bearer abc")), Some("abc"));
    assert_eq!(bearer(Some("Basic abc")), None);
    assert_eq!(bearer(None), None);
}

fn issuer(client_id: Option<&str>) -> IssuerConfig {
    IssuerConfig {
        issuer: "https://issuer.example".into(),
        audience: "aud".into(),
        client_id: client_id.map(str::to_owned),
        jwks_url: None,
        github_owner_id: None,
        ref_patterns: vec![],
        ref_protected: None,
        repository_ids: vec![],
        event_names: vec![],
        job_workflow_refs: vec![],
        allowed_groups: vec![],
    }
}

#[test]
fn people_log_in_with_the_first_issuer_that_has_a_client() {
    assert_eq!(login_issuer(&vec![issuer(None), issuer(Some("c"))]), Some(1));
    assert_eq!(login_issuer(&vec![issuer(None)]), None);
}

#[test]
fn the_sweep_runs_when_its_time_has_come() {
    let (since, due) = sweep_due(0, 300);
    assert_eq!((since, due), (300, false));
    let (since, due) = sweep_due(604_700, 300);
    assert_eq!((since, due), (0, true));
}

#[test]
fn framing_round_trips() {
    let json = br#"{"storePath":"/nix/store/aaaaaaaaaaaaaaaaaaaaaaaaaaaaaaaa-x"}"#;
    let framed = to_framed(json);
    let len = u32::from_le_bytes(framed[..4].try_into().unwrap()) as usize;
    assert_eq!(framed.len(), 4 + len);
    assert_eq!(&framed[4..], json);

    let mut stream = framed.clone();
    stream.extend_from_slice(b"body");
    assert_eq!(take_preamble(&mut stream), Ok(Some(json.to_vec())));
    assert_eq!(stream, b"body");
    let mut early = framed[..10].to_vec();
    assert_eq!(take_preamble(&mut early), Ok(None));
    let mut huge = ((MAX_PREAMBLE + 1) as u32).to_le_bytes().to_vec();
    assert!(take_preamble(&mut huge).is_err());
}

#[test]
fn hash_comes_off_the_basename() {
    assert_eq!(
        hash_of_store_path("/nix/store/v2xb3fmd3qd34s7q7sngajj8rjl5k25j-payload"),
        "v2xb3fmd3qd34s7q7sngajj8rjl5k25j"
    );
}

#[test]
fn statuses_collapse_to_classes() {
    assert_eq!(status_class(200), "2xx");
    assert_eq!(status_class(307), "3xx");
    assert_eq!(status_class(429), "4xx");
    assert_eq!(status_class(503), "5xx");
}

fn row(hash: &str, name: &str, created_at: i64, file_size: i64) -> garret::db::Brief {
    garret::db::Brief {
        hash: hash.to_string(),
        name: name.to_string(),
        created_at,
        file_size,
    }
}

fn blob(hash: &str, age_secs: u64, size: i64) -> Blob {
    Blob {
        key: garret::storage::key_for(hash),
        age_secs,
        size,
    }
}

const GRACE: u64 = 86400;
const NOW: i64 = 1_000_000;

#[test]
fn a_genuinely_dangling_row_is_reported() {
    let rows = vec![row("a", "thing", NOW - 2 * 86400, 5)];
    let blobs = vec![];
    let in_flight = InFlight::new();
    let (dangling, mismatches) = classify_rows(&rows, &blobs, &in_flight, GRACE, NOW, false);
    assert_eq!(
        dangling,
        vec![FsckRow {
            store_path_hash: "a".into(),
            name: "thing".into()
        }]
    );
    assert!(mismatches.is_empty());
}

#[test]
fn an_in_flight_upload_is_not_reported_dangling() {
    let rows = vec![row("a", "thing", NOW - 2 * 86400, 5)];
    let blobs = vec![];
    let mut in_flight = InFlight::new();
    let _claim = in_flight.claim("a", Kind::Upload).unwrap();
    let (dangling, _) = classify_rows(&rows, &blobs, &in_flight, GRACE, NOW, false);
    assert!(dangling.is_empty(), "in-flight upload reported as dangling");
}

#[test]
fn a_row_younger_than_the_grace_period_is_not_reported_dangling() {
    let rows = vec![row("a", "thing", NOW - 10, 5)];
    let blobs = vec![];
    let in_flight = InFlight::new();
    let (dangling, _) = classify_rows(&rows, &blobs, &in_flight, GRACE, NOW, false);
    assert!(dangling.is_empty(), "young row reported as dangling");
}

#[test]
fn a_size_mismatch_is_its_own_category_only_when_verify_sizes_is_set() {
    let rows = vec![row("a", "thing", NOW - 2 * 86400, 5)];
    let blobs = vec![blob("a", 90000, 9)];
    let in_flight = InFlight::new();

    let (dangling, mismatches) = classify_rows(&rows, &blobs, &in_flight, GRACE, NOW, false);
    assert!(dangling.is_empty());
    assert!(mismatches.is_empty(), "no size check without verify_sizes");

    let (dangling, mismatches) = classify_rows(&rows, &blobs, &in_flight, GRACE, NOW, true);
    assert!(dangling.is_empty(), "mismatch double-reported as dangling");
    assert_eq!(
        mismatches,
        vec![FsckSizeMismatch {
            store_path_hash: "a".into(),
            name: "thing".into(),
            db_size: 5,
            s3_size: 9,
        }]
    );
}

#[test]
fn matching_rows_are_reported_in_neither_category() {
    let rows = vec![row("a", "thing", NOW - 2 * 86400, 5)];
    let blobs = vec![blob("a", 90000, 5)];
    let in_flight = InFlight::new();
    let (dangling, mismatches) = classify_rows(&rows, &blobs, &in_flight, GRACE, NOW, true);
    assert!(dangling.is_empty());
    assert!(mismatches.is_empty());
}

#[test]
fn a_drain_that_finishes_in_time_reports_success() {
    assert!(is_drained(&InFlight::new()));
}

#[test]
fn a_drain_that_never_finishes_times_out() {
    let mut in_flight = InFlight::new();
    let _claim = in_flight.claim("a", Kind::Upload).unwrap();
    assert!(!is_drained(&in_flight));
}

#[test]
fn a_repair_leaves_nothing_for_the_next_check() {
    let mut db = Db::new();
    let a = "a".repeat(32);
    let object = build(&preamble()).unwrap();
    insert_object(&mut db, &object, NOW - 2 * 86400).unwrap();
    let in_flight = InFlight::new();
    let options = FsckOptions {
        repair: true,
        verify_sizes: true,
        quiesce: true,
    };
    let blobs = vec![blob(&a, 90000, 3)];
    let undrained = run(&mut db, &blobs, &in_flight, GRACE, NOW, options, false);
    assert_eq!(undrained.repaired, 0);
    assert!(undrained.quiesced && !undrained.quiesce_drained);
    let first = run(&mut db, &blobs, &in_flight, GRACE, NOW, options, true);
    assert_eq!(first.dangling.len(), 1);
    assert_eq!(first.repaired, 1);
    assert_eq!(first.orphans, vec![format!("nar/{a}.nar.zst")]);
    let second = run(&mut db, &blobs, &in_flight, GRACE, NOW, options, true);
    assert!(second.dangling.is_empty() && second.size_mismatches.is_empty());
}

#[test]
fn orphan_keys_excludes_known_in_flight_and_young_blobs() {
    let blobs = vec![
        blob("known", 90000, 1),
        blob("uploading", 90000, 1),
        blob("young", 10, 1),
        blob("stale", 90000, 1),
    ];
    let mut known: Table<String> = Table::new();
    known.put("known".to_string());
    let mut in_flight = InFlight::new();
    let _claim = in_flight.claim("uploading", Kind::Upload).unwrap();

    assert_eq!(
        orphan_keys(&blobs, &known, &in_flight, 86400),
        vec!["nar/stale.nar.zst".to_string()],
    );
}

/// A NAR-sized body, compressed the way the client does, and the claim an
/// honest client would make.
fn nar() -> (Vec<u8>, Vec<u8>, String, i64) {
    let nar: Vec<u8> = (0..300_000u32)
        .flat_map(|i| (i % 251).to_le_bytes())
        .collect();
    let compressed = zstd::encode_all(nar.as_slice(), 3).unwrap();
    let hash = format!("sha256:{}", encode(&sha2::Sha256::digest(&nar)));
    (nar, compressed, hash, 300_000 * 4)
}

/// Feeds `compressed` to the verifier in small chunks; returns the bytes that
/// passed and why it was refused.
fn passed(compressed: &[u8], hash: &str, size: i64) -> (Vec<u8>, Option<String>) {
    let mut nar = VerifiedNar::new(hash, size).unwrap();
    let mut passed = Vec::new();
    for chunk in compressed.chunks(1000) {
        if !nar.feed(chunk) {
            return (passed, nar.refused);
        }
        passed.extend_from_slice(chunk);
    }
    let _ = nar.finish();
    (passed, nar.refused)
}

#[test]
fn an_honest_nar_passes_through_untouched() {
    let (_, compressed, hash, size) = nar();
    let (passed, refused) = passed(&compressed, &hash, size);
    assert_eq!(refused, None);
    assert_eq!(passed, compressed);
}

#[test]
fn an_honest_nar_ending_on_a_buffer_boundary_passes() {
    let nar = vec![b'n'; 4 * SCRATCH];
    let compressed = zstd::encode_all(nar.as_slice(), 3).unwrap();
    let hash = format!("sha256:{}", encode(&sha2::Sha256::digest(&nar)));
    let (passed, refused) = passed(&compressed, &hash, nar.len() as i64);
    assert_eq!(refused, None);
    assert_eq!(passed, compressed);
}

#[test]
fn a_wrong_nar_hash_is_refused_at_end_of_stream() {
    let (_, compressed, _, size) = nar();
    let other = format!("sha256:{}", encode(&sha2::Sha256::digest(b"other")));
    let (_, refused) = passed(&compressed, &other, size);
    assert!(refused.is_some());
}

#[test]
fn a_wrong_nar_size_is_refused_either_way() {
    let (_, compressed, hash, size) = nar();
    // Claimed too small: refused as soon as the NAR outgrows it.
    let (through, refused) = passed(&compressed, &hash, size - 1);
    assert!(refused.is_some());
    assert!(through.len() < compressed.len());
    // Claimed too large: refused at end of stream.
    assert!(passed(&compressed, &hash, size + 1).1.is_some());
}

#[test]
fn a_truncated_or_corrupt_stream_is_refused() {
    let (_, compressed, hash, size) = nar();
    let truncated = &compressed[..compressed.len() - 10];
    assert!(passed(truncated, &hash, size).1.is_some());
    let mut trailing = compressed.clone();
    trailing.extend_from_slice(b"not zstd");
    assert!(passed(&trailing, &hash, size).1.is_some());
    assert!(passed(b"", &hash, size).1.is_some());
}

#[test]
fn a_window_wider_than_the_budget_is_refused() {
    // 16 MiB: one step past the 8 MiB each upload's decoder may hold.
    let (nar, _, hash, size) = nar();
    let mut encoder = zstd::stream::write::Encoder::new(Vec::new(), 3).unwrap();
    encoder.window_log(WINDOW_LOG_MAX + 1).unwrap();
    std::io::Write::write_all(&mut encoder, &nar).unwrap();
    let wide = encoder.finish().unwrap();
    assert!(passed(&wide, &hash, size).1.is_some());
}
