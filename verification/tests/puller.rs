use garret::db::{get_object_and_last_accessed, insert_object, Db, Object};
use garret::puller::{
    browse_status, default_limit, nar_answer, nar_lookup, nar_request, narinfo_answer,
    narinfo_request, nix_cache_info, probe_outcome, probe_target, readiness, Bumps, ProbeCache,
    PullAnswer, Timed, READ_PROBE_TTL_MS,
};

const DAY: i64 = 86400;

fn object(hash: &str) -> Object {
    Object {
        store_path_hash: hash.into(),
        store_path: format!("/nix/store/{hash}-thing"),
        name: "thing".into(),
        nar_hash: "sha256:x".into(),
        nar_size: 10,
        file_hash: "sha256:y".into(),
        file_size: 5,
        deriver: None,
        ca: None,
        references: vec![],
        sigs: vec![],
        pushed_by: None,
    }
}

/// The pull-path read of `hash`, fed to a hit.
fn hit(bumps: &mut Bumps, db: &Db, hash: &str, now: i64) {
    let (_, last_accessed_at) = get_object_and_last_accessed(db, hash).unwrap();
    bumps.hit(hash, last_accessed_at, now, DAY);
}

#[test]
fn a_debounced_hit_performs_no_write() {
    let mut db = Db::new();
    let hash = "a".repeat(32);
    insert_object(&mut db, &object(&hash), 1000).unwrap();
    let mut bumps = Bumps::new();
    // The last second of the window.
    hit(&mut bumps, &db, &hash, 1000 + DAY);
    assert_eq!(
        bumps.flush(&mut db, 1000 + DAY, DAY),
        0,
        "a fresh row must not be written"
    );
}

#[test]
fn a_burst_of_hits_on_one_hash_is_one_write() {
    let mut db = Db::new();
    let hash = "a".repeat(32);
    insert_object(&mut db, &object(&hash), 1000).unwrap();
    let now = 1000 + DAY + 1;

    let mut bumps = Bumps::new();
    for _ in 0..100 {
        hit(&mut bumps, &db, &hash, now);
    }
    assert_eq!(bumps.flush(&mut db, now, DAY), 1);

    // Written: later hits read the fresh value and queue nothing.
    hit(&mut bumps, &db, &hash, now + 1);
    assert_eq!(bumps.flush(&mut db, now + 1, DAY), 0);
}

#[test]
fn a_narinfo_is_found_missed_or_degraded() {
    let hash = "a".repeat(32);
    assert_eq!(
        narinfo_request(&format!("{hash}.narinfo"), true).ok(),
        Some(hash.clone())
    );
    assert_eq!(
        narinfo_request("nix-cache-info", true).err().unwrap().status(),
        404
    );
    assert_eq!(
        narinfo_request(&format!("{hash}.narinfo"), false)
            .err()
            .unwrap()
            .status(),
        503
    );
    let mut bumps = Bumps::new();
    let found = Timed::Done(Some((object(&hash), 0)));
    let answer = narinfo_answer(found, &mut bumps, &hash, 10 * DAY, DAY);
    let PullAnswer::Narinfo(text) = answer else {
        panic!("a row is a narinfo")
    };
    assert!(text.starts_with(&format!("StorePath: /nix/store/{hash}-thing\n")));
    assert_eq!(bumps.take(), vec![hash.clone()]);
    let gone = narinfo_answer(Timed::Done(None), &mut bumps, &hash, 0, DAY);
    assert_eq!(gone.status(), 404);
    let slow = narinfo_answer(Timed::TimedOut, &mut bumps, &hash, 0, DAY);
    let PullAnswer::Miss(reason) = slow else {
        panic!("a slow read is a miss")
    };
    assert_eq!(reason.label(), "db_timeout");
}

#[test]
fn a_nar_is_a_redirect_to_its_blob() {
    let hash = "a".repeat(32);
    assert_eq!(
        nar_request(&format!("{hash}.nar.zst"), true).ok(),
        Some(hash.clone())
    );
    assert_eq!(
        nar_lookup(Timed::Done(true), &hash).ok(),
        Some(format!("nar/{hash}.nar.zst"))
    );
    assert_eq!(
        nar_lookup(Timed::Done(false), &hash).err().unwrap().status(),
        404
    );
    let PullAnswer::Redirect(url) = nar_answer(Timed::Done("https://s3/x".into())) else {
        panic!("a link is a redirect")
    };
    assert_eq!(url, "https://s3/x");
    assert_eq!(
        PullAnswer::Redirect("x".into()).status(),
        302
    );
    assert!(matches!(nar_answer(Timed::Failed), PullAnswer::Miss(_)));
}

#[test]
fn the_answer_of_a_probe_is_kept_for_a_while() {
    let mut cache = ProbeCache::new();
    assert!(cache.cached(0, READ_PROBE_TTL_MS).is_none());
    let failed: Result<(), String> = probe_outcome(403);
    cache.record(100, &failed);
    assert_eq!(
        cache.cached(120, READ_PROBE_TTL_MS),
        Some(Err("presigned GET answered 403".to_owned()))
    );
    assert!(cache.cached(100 + READ_PROBE_TTL_MS, READ_PROBE_TTL_MS).is_none());
}

#[test]
fn readiness_tells_what_is_wrong() {
    assert_eq!(readiness(false, None), (503, "database not ready".into()));
    assert_eq!(readiness(true, None), (200, "ready".into()));
    let failed = Err("x".to_owned());
    assert_eq!(
        readiness(true, Some(&failed)),
        (503, "S3 read path failing: x".into())
    );
    assert_eq!(
        probe_target(Timed::Done(Some("abc".into())), ""),
        Ok(Some("nar/abc.nar.zst".into()))
    );
    assert_eq!(
        probe_target(Timed::TimedOut, ""),
        Err("database read over budget".into())
    );
}

#[test]
fn browse_requests_end_in_a_status() {
    assert_eq!(browse_status(Timed::Failed), 500);
    assert_eq!(browse_status(Timed::Done(true)), 200);
    assert_eq!(browse_status(Timed::Done(false)), 404);
    assert_eq!(browse_status(Timed::TimedOut), 503);
    assert_eq!(default_limit(), 50);
}

#[test]
fn the_cache_describes_itself() {
    assert_eq!(
        nix_cache_info("/nix/store"),
        "StoreDir: /nix/store\nWantMassQuery: 1\nPriority: 40\n"
    );
}
