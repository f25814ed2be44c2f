use garret::client::push::{
    acknowledged, connection_dropped, dry_line, dry_run, fastrand_millis, hashes, is_retryable, is_stalled,
    judge_negotiation, judge_upload, nar_bytes, negotiated_line, partition_upstream, preamble_of,
    shed_for, signed_upstream, start, still_missing, summarize, upload_url, Backoff, Cause, Event,
    IoKind, Negotiation, Next, PathInfo, PushOne, Status, UploadError, SHED_DEADLINE,
    UPLOAD_IDLE_MS,
};
use garret::client::config::Config;
use garret::client::watcher::{
    cursor_of, cursor_text, drain_cursor, failed_path, failed_text, failure_text, first_cursor,
    only, parse_failed, Drain, Filters, Retried, ValidPath, WatchState, Watcher,
};
use garret::table::Table;

fn info(path: &str, signatures: &[&str]) -> PathInfo {
    PathInfo {
        path: path.into(),
        nar_hash: "sha256:h".into(),
        nar_size: 1,
        references: vec![],
        deriver: None,
        ca: None,
        signatures: signatures.iter().map(|s| (*s).to_owned()).collect(),
    }
}

#[test]
fn upstream_signed_paths_are_partitioned_out() {
    let keys = vec!["cache.nixos.org-1".to_owned()];
    let closure = vec![
        info("/nix/store/aaa-ours", &["garret-1:sig"]),
        info("/nix/store/bbb-toolchain", &["cache.nixos.org-1:sig"]),
        info("/nix/store/ccc-unsigned", &[]),
        // A key whose name merely contains an upstream key must not match.
        info("/nix/store/ddd-lookalike", &["not-cache.nixos.org-1x:sig"]),
    ];
    let (ours, upstream) = partition_upstream(closure, &keys);
    assert_eq!(
        ours.iter().map(|p| p.path.as_str()).collect::<Vec<_>>(),
        [
            "/nix/store/aaa-ours",
            "/nix/store/ccc-unsigned",
            "/nix/store/ddd-lookalike"
        ]
    );
    assert_eq!(upstream.len(), 1);
    assert_eq!(upstream[0].path, "/nix/store/bbb-toolchain");
    assert!(signed_upstream(&vec!["cache.nixos.org-1:x".into()], &keys));
}

#[test]
fn the_negotiated_line_mentions_upstream_only_when_nonzero() {
    assert_eq!(negotiated_line(2, 0, 2), "2 path(s) in closure, 2 missing");
    assert_eq!(
        negotiated_line(5, 3, 1),
        "5 path(s) in closure, 3 served upstream, 1 missing"
    );
}

fn shed(secs: u64) -> UploadError {
    UploadError::Shed(secs)
}

fn rejected(status: u16) -> UploadError {
    UploadError::Rejected {
        status,
        body: "nope".into(),
    }
}

#[test]
fn shedding_waits_out_retry_after_and_never_spends_the_error_budget() {
    let mut backoff = Backoff::new(2, 0);
    let mut now: u64 = 0;
    for i in 0..100u64 {
        let wait = backoff
            .next(&shed(3), now, i * 7919)
            .expect("well inside the deadline");
        assert!((3000..6000).contains(&wait), "{wait:?}");
        now += wait;
    }
    assert!(backoff.next(&rejected(503), now, 0).is_some());
    assert!(backoff.next(&rejected(503), now, 0).is_some());
    // A shed in between resets the budget.
    assert!(backoff.next(&shed(1), now, 0).is_some());
    assert!(backoff.next(&rejected(503), now, 0).is_some());
    assert!(backoff.next(&rejected(503), now, 0).is_some());
    assert!(backoff.next(&rejected(503), now, 0).is_none());
}

#[test]
fn shedding_gives_up_at_the_deadline() {
    let mut backoff = Backoff::new(5, 0);
    let early = (SHED_DEADLINE - 10) * 1000;
    assert!(backoff.next(&shed(1), early, 999).is_some());
    assert!(backoff.next(&shed(1), SHED_DEADLINE * 1000, 0).is_none());
}

#[test]
fn retry_after_is_held_between_a_second_and_the_deadline() {
    assert_eq!(shed_for(Some("7")), 7);
    assert_eq!(shed_for(Some("0")), 1);
    assert_eq!(shed_for(None), 1);
    assert_eq!(shed_for(Some("Wed, 21 Oct 2015 07:28:00 GMT")), 1);
    let absurd = shed_for(Some("18446744073709551615"));
    assert_eq!(absurd, SHED_DEADLINE);
    let mut backoff = Backoff::new(0, 0);
    assert!(backoff.next(&shed(absurd), 1, 0).is_none());
}

#[test]
fn server_errors_back_off_doubling_and_client_errors_fail_at_once() {
    let mut backoff = Backoff::new(5, 0);
    let first = backoff.next(&rejected(503), 0, 123_456).unwrap();
    let second = backoff.next(&rejected(502), 0, 654_321).unwrap();
    assert!((250..500).contains(&first));
    assert!((500..1000).contains(&second));
    assert!(backoff.next(&rejected(400), 0, 0).is_none());
    assert!(backoff
        .next(&UploadError::Unauthorized("x".into()), 0, 0)
        .is_none());
}

#[test]
fn a_slow_upload_that_keeps_moving_is_not_a_stall() {
    let mut last = 0;
    for tick in 1..=10u64 {
        let now = tick * 5000;
        assert!(!is_stalled(last, 10_000, now));
        last = now;
    }
}

#[test]
fn going_idle_is_a_retryable_stall() {
    assert!(is_stalled(0, UPLOAD_IDLE_MS, UPLOAD_IDLE_MS));
    assert!(is_retryable(&UploadError::Stalled));
    assert_eq!(
        UploadError::Stalled.message(),
        "upload stalled: no progress for 300s"
    );
}

#[test]
fn a_dropped_connection_is_recognised_through_the_source_chain() {
    let wrapped = |kind: IoKind| {
        vec![
            Cause::Shown("error writing a body to connection".into()),
            Cause::Io(kind),
        ]
    };
    for kind in [
        IoKind::BrokenPipe,
        IoKind::ConnectionReset,
        IoKind::UnexpectedEof,
    ] {
        assert!(connection_dropped(&wrapped(kind)));
    }
    assert!(!connection_dropped(&wrapped(IoKind::Other)));
    // No I/O error anywhere in the chain: not a drop.
    assert!(!connection_dropped(&vec![Cause::Shown("an error".into())]));
    assert!(connection_dropped(&vec![Cause::Shown(
        "connection closed before message completed".into()
    )]));
}

#[test]
fn jitter_never_exceeds_the_delay() {
    for ms in [1u64, 250, 4000] {
        for micros in [0, 999_999, 123_456] {
            assert!(fastrand_millis(ms, micros) < ms.max(1));
        }
    }
}

#[test]
fn answers_to_uploads_are_judged() {
    assert!(judge_upload(201, None, "").is_ok());
    assert!(matches!(
        judge_upload(429, Some("3"), ""),
        Err(UploadError::Shed(3))
    ));
    assert!(matches!(
        judge_upload(401, None, " no\n"),
        Err(UploadError::Unauthorized(b)) if b == "no"
    ));
    let error = judge_upload(502, None, " bad\n").unwrap_err();
    assert_eq!(error.message(), "upload rejected with 502 Bad Gateway: bad");
    assert!(is_retryable(&error));
    for status in [500, 503, 509, 510, 599] {
        assert!(is_retryable(&rejected(status)));
    }
    for status in [302, 400, 404, 409, 450, 499, 600] {
        assert!(!is_retryable(&rejected(status)));
    }
    let body = "quota is 50 GiB".to_owned();
    assert!(!is_retryable(&UploadError::Rejected { status: 400, body }));
    assert!(!is_retryable(&UploadError::Unauthorized("until 5050".into())));
    assert!(!is_retryable(&UploadError::Other("took 50 s".into())));
    assert_eq!(
        UploadError::Rejected { status: 599, body: "x".into() }.message(),
        "upload rejected with 599 <unknown status code>: x"
    );
    assert_eq!(acknowledged("exists"), Status::Deduped);
    assert_eq!(acknowledged("created"), Status::Pushed);
}

#[test]
fn a_refused_token_is_replaced_once() {
    let mut one = PushOne::new(5, 0);
    let refused = UploadError::Unauthorized("no".into());
    assert_eq!(one.failed(&refused, 1, 0), Next::Renew);
    assert_eq!(one.renewal(true, &refused, 1, 0), Next::Wait(0));
    assert_eq!(one.failed(&refused, 2, 0), Next::GiveUp);
    let mut other = PushOne::new(5, 0);
    assert_eq!(other.failed(&refused, 1, 0), Next::Renew);
    assert_eq!(other.renewal(false, &refused, 1, 0), Next::GiveUp);
}

#[test]
fn a_negotiation_leaves_what_is_missing() {
    let h = |c: &str| c.repeat(32);
    let a = format!("/nix/store/{}-a", h("a"));
    let b = format!("/nix/store/{}-b", h("b"));
    let closure = vec![info(&a, &[]), info(&b, &[])];
    assert_eq!(hashes(&closure), vec![h("a"), h("b")]);
    let missing = still_missing(closure, &vec![h("b")]);
    assert_eq!(missing.len(), 1);
    assert_eq!(missing[0].path, b);
    assert_eq!(
        upload_url("https://p", &b),
        format!("https://p/api/v1/nar/{}", h("b"))
    );
    let preamble = preamble_of(&missing[0]);
    assert_eq!(preamble.store_path, b);
    assert_eq!(preamble.nar_size, 1);
    assert_eq!(only(missing, &b).len(), 1);
    assert!(matches!(judge_negotiation(200, "", false), Negotiation::Read));
    assert!(matches!(judge_negotiation(401, "", false), Negotiation::Renew));
    assert!(matches!(judge_negotiation(401, "", true), Negotiation::Rejected(_)));
}

#[test]
fn a_run_accounts_for_every_path() {
    let statuses = vec![Status::Pushed, Status::Deduped, Status::Failed, Status::Pushed];
    let summary = summarize(&statuses, 7);
    assert_eq!(
        (summary.pushed, summary.deduped, summary.failed, summary.nar_bytes),
        (2, 1, 1, 7)
    );
    let missing = vec![info("/nix/store/a", &[]), info("/nix/store/b", &[])];
    let upstream = vec![info("/nix/store/u", &[])];
    assert_eq!(nar_bytes(&missing), 2);
    let events = start(3, &upstream, &missing);
    assert!(matches!(
        events[0],
        Event::Negotiated { closure: 3, upstream: 1, missing: 2, nar_bytes: 2 }
    ));
    assert_eq!(events.len(), 2);
    let dry = dry_run(3, &upstream, &missing);
    assert_eq!(dry.len(), 5);
    assert!(dry[1].line().contains("upstream"));
    assert!(dry[2].line().contains("would-push"));
    assert_eq!(dry_line(&dry[0], "7 B"), dry[0].line());
    assert_eq!(dry_line(&dry[1], "7 B"), format!("  upstream   {}", upstream[0].path));
    assert_eq!(dry_line(&dry[2], "7 B"), format!("  would-push {}", missing[0].path));
    assert_eq!(dry_line(&dry[4], "7 B"), "7 B to upload (uncompressed)");
}

fn path(p: &str, sigs: &[&str]) -> ValidPath {
    ValidPath {
        id: 1,
        path: p.into(),
        sigs: sigs.iter().map(|s| (*s).to_owned()).collect(),
    }
}

#[test]
fn drvs_and_upstream_signed_paths_are_skipped() {
    let filters = Filters {
        upstream_keys: vec!["cache.nixos.org-1".into()],
        exclude_patterns: vec!["-secret".into()],
    };
    assert_eq!(
        filters.should_skip(&path("/nix/store/aaa-thing.drv", &[])),
        Some("drv")
    );
    assert_eq!(
        filters.should_skip(&path("/nix/store/aaa-thing", &["cache.nixos.org-1:sig"])),
        Some("upstream")
    );
    assert_eq!(
        filters.should_skip(&path("/nix/store/aaa-my-secret-key", &[])),
        Some("excluded")
    );
}

#[test]
fn source_and_locally_signed_paths_are_kept() {
    let filters = Filters {
        upstream_keys: vec!["cache.nixos.org-1".into()],
        exclude_patterns: vec![],
    };
    // `-source` and fixed-output paths are exactly what we want to cache.
    assert_eq!(
        filters.should_skip(&path("/nix/store/aaa-thing-source", &[])),
        None
    );
    // Signed, but by us: still ours to push.
    assert_eq!(
        filters.should_skip(&path("/nix/store/aaa-thing", &["garret-1:sig"])),
        None
    );
    // A key whose name merely contains an upstream key must not match.
    assert_eq!(
        filters.should_skip(&path(
            "/nix/store/aaa-thing",
            &["not-cache.nixos.org-1x:sig"]
        )),
        None
    );
}

#[test]
fn the_cursor_round_trips_through_disk() {
    assert_eq!(cursor_of(None), None);
    assert_eq!(cursor_of(Some(&cursor_text(42))), Some(42));
    assert_eq!(cursor_of(Some(&cursor_text(i64::MIN))), Some(i64::MIN));
    assert_eq!(cursor_of(Some("x")), None);
    assert_eq!(first_cursor(Some(5), true, 9), 5);
    assert_eq!(first_cursor(None, true, 9), 0);
    assert_eq!(first_cursor(None, false, 9), 9);
    assert_eq!(drain_cursor(None, false), None);
    assert_eq!(drain_cursor(None, true), Some(0));
}

#[test]
fn the_failed_list_lives_beside_the_cursor_and_goes_when_empty() {
    assert_eq!(failed_path("/d/watcher-cursor"), "/d/watcher-cursor.failed");
    for path in [
        "cursor", "/cursor", "./cursor", "d/cursor", "d//cursor", "d/./cursor", "cursor/",
        "d/cursor/./", "//cursor", "../cursor", "d/../cursor", ".hidden", "...", "", "/", ".", "./",
        "..", "../", "d/..", "d/.././", "/..", ".//",
    ] {
        let path = std::path::Path::new(path);
        let mut name = path.file_name().unwrap_or_default().to_os_string();
        name.push(".failed");
        let expected = path.with_file_name(name);
        assert_eq!(failed_path(path.to_str().unwrap()), expected.to_str().unwrap());
    }
    assert_eq!(failed_path("d//cursor"), "d/cursor.failed");
    assert_eq!(failed_path("d/.."), "d/../.failed");
    assert_eq!(failed_path(""), ".failed");
    let mut list: Table<String> = Table::new();
    assert_eq!(failed_text(&list), "");
    list.put("/nix/store/bbb-y".into());
    list.put("/nix/store/aaa-x".into());
    let text = failed_text(&list);
    assert_eq!(text, "/nix/store/aaa-x\n/nix/store/bbb-y\n");
    assert_eq!(parse_failed(&text).rows, list.rows);
    assert!(parse_failed("").rows.is_empty());
}

#[test]
fn failed_paths_are_retried_until_they_are_given_up() {
    let none = Filters {
        upstream_keys: vec![],
        exclude_patterns: vec![],
    };
    let mut state = WatchState::new(0, Table::new());
    let mut first = path("/nix/store/aaa-x", &[]);
    first.id = 7;
    assert_eq!(state.see(&first, &none), None);
    assert_eq!(state.cursor, 7);
    state.push_failed(&first.path);
    assert_eq!(state.due(3), vec![first.path.clone()]);
    assert_eq!(state.retried(&first.path, false, 3), Retried::Failed(2));
    assert_eq!(state.retried(&first.path, false, 3), Retried::GivenUp(3));
    assert!(state.due(3).is_empty());
    assert_eq!(state.failed.rows, vec![first.path.clone()]);
    assert_eq!(state.retried(&first.path, true, 3), Retried::Pushed);
    assert!(state.failed.rows.is_empty());
}

#[test]
fn a_drain_pushes_what_is_new_and_what_failed() {
    let none = Filters {
        upstream_keys: vec![],
        exclude_patterns: vec![],
    };
    let mut failed: Table<String> = Table::new();
    failed.put("/nix/store/old".into());
    let mut drain = Drain::new(3, 6, failed);
    let at = |id: i64, p: &str| ValidPath {
        id,
        path: p.into(),
        sigs: vec![],
    };
    let more = drain.take(
        &vec![at(5, "/nix/store/a"), at(6, "/nix/store/b.drv"), at(9, "/nix/store/late")],
        &none,
    );
    assert!(!more);
    assert_eq!(drain.cursor, 6);
    assert_eq!(drain.todo, vec!["/nix/store/old", "/nix/store/a"]);
    drain.finish(&vec![
        ("/nix/store/old".into(), true),
        ("/nix/store/a".into(), false),
    ]);
    assert_eq!(drain.failed.rows, vec!["/nix/store/a"]);
    assert_eq!(failure_text(1), "1 path(s) failed to push");
}

#[test]
fn the_watcher_takes_its_own_key_list_first() {
    let mut cfg = Config {
        endpoint: "https://push.example".into(),
        oidc: garret::client::config::Oidc {
            issuer: "https://id.example".into(),
            client_id: None,
            audience: "garret".into(),
            resource: None,
        },
        jobs: 8,
        zstd_level: 3,
        max_retries: 5,
        puller_endpoint: None,
        public_keys: vec![],
        upstream_keys: vec!["up-1".into()],
        watch: Default::default(),
    };
    let watcher = Watcher::configured(&cfg);
    assert_eq!(watcher.filters.upstream_keys, vec!["up-1"]);
    assert_eq!(watcher.nix_db, "/nix/var/nix/db/db.sqlite");
    cfg.watch.upstream_keys = Some(vec!["own-1".into()]);
    assert_eq!(
        Watcher::configured(&cfg).filters.upstream_keys,
        vec!["own-1"]
    );
}
