use garret::admin::{collected, delete, dispatch, resign, status, Plan, Request, Response};
use garret::browse::{list, pins, referrers, tree, Pin};
use garret::db::{
    all_hashes, all_objects_brief, bump_last_accessed, delete_object, get_object,
    get_object_and_last_accessed, hash_of, insert_object, missing, most_recently_accessed,
    object_exists, pin, reconcile_total_bytes, total_bytes, unpin, update_sigs, Db, DbError, Object,
};
use garret::eviction::evictable;
use garret::fsck::{apply_repair, classify_rows};
use garret::gc::{evict, pass_due, Pass, PassResult, PUSH_GRACE};
use garret::inflight::{InFlight, Kind};
use garret::narinfo::SigningKeyFile;
use garret::prune::{prune, referrers_first, Pruned};

fn object(hash: &str, refs: &[&str]) -> Object {
    Object {
        store_path_hash: hash.into(),
        store_path: format!("/nix/store/{hash}-thing"),
        name: "thing".into(),
        nar_hash: "sha256:x".into(),
        nar_size: 10,
        file_hash: "sha256:y".into(),
        file_size: 5,
        deriver: None,
        ca: None,
        references: refs.iter().map(|r| (*r).to_owned()).collect(),
        sigs: vec!["k:sig".into()],
        pushed_by: Some("someone".into()),
    }
}

fn named(hash: &str, name: &str, refs: &[&str]) -> Object {
    Object {
        store_path: format!("/nix/store/{hash}-{name}"),
        name: name.into(),
        sigs: vec![],
        pushed_by: None,
        ..object(hash, refs)
    }
}

fn sized(hash: &str, size: i64, refs: &[&str]) -> Object {
    Object {
        file_size: size,
        nar_size: size,
        references: refs.iter().map(|r| format!("{r}-x")).collect(),
        ..object(hash, &[])
    }
}

fn h(c: char) -> String {
    c.to_string().repeat(32)
}

fn evictable_hashes(db: &Db, now: i64) -> Vec<String> {
    evictable(db, 10, now).into_iter().map(|(h, _)| h).collect()
}

#[test]
fn hash_of_survives_a_multibyte_character_at_the_hash_boundary() {
    let base = format!("{}é-x", "a".repeat(31));
    assert!(!garret::nix_base32::is_store_hash(hash_of(&base)));
    assert_eq!(hash_of(&format!("{}-x", "a".repeat(32))), "a".repeat(32));
}

#[test]
fn round_trips_an_object_with_sorted_references() {
    let mut db = Db::new();
    let a = "a".repeat(32);
    let obj = object(
        &a,
        &[
            &format!("{}-zed", "c".repeat(32)),
            &format!("{}-abe", "b".repeat(32)),
        ],
    );
    insert_object(&mut db, &obj, 100).unwrap();

    let got = get_object(&db, &a).unwrap();
    assert_eq!(
        got.references,
        vec![
            format!("{}-abe", "b".repeat(32)),
            format!("{}-zed", "c".repeat(32)),
        ]
    );
    assert_eq!(got.sigs, vec!["k:sig".to_string()]);
    assert!(object_exists(&db, &a));
    assert_eq!(
        missing(&mut db, &vec![a.clone(), "nope".into()], 100),
        vec!["nope"]
    );
}

#[test]
fn self_references_survive_the_round_trip_and_stay_evictable() {
    let mut db = Db::new();
    let a = "a".repeat(32);
    let own = format!("{a}-thing");
    insert_object(&mut db, &object(&a, &[&own]), 100).unwrap();

    assert_eq!(
        get_object(&db, &a).unwrap().references,
        vec![own],
        "self-reference must round-trip: it is covered by the signature"
    );
    assert!(
        evictable(&db, 10, 1000).iter().any(|(h, _)| h == &a),
        "self-reference made the object unevictable"
    );
}

#[test]
fn reinserting_does_not_double_count_usage() {
    let mut db = Db::new();
    let a = "a".repeat(32);
    insert_object(&mut db, &object(&a, &[]), 100).unwrap();
    insert_object(&mut db, &object(&a, &[]), 200).unwrap();
    assert_eq!(db.total_bytes, 5);
}

#[test]
fn a_reference_that_comes_twice_is_refused() {
    let mut db = Db::new();
    let dep = format!("{}-dep", h('b'));
    let got = insert_object(&mut db, &object(&h('a'), &[&dep, &dep]), 100);
    assert_eq!(got, Err(DbError::DuplicateReference));
    assert!(!object_exists(&db, &h('a')));
}

#[test]
fn only_unreferenced_objects_are_evictable_and_lru_first() {
    let mut db = Db::new();
    let (a, b, c) = ("a".repeat(32), "b".repeat(32), "c".repeat(32));
    // a → b, so b is pinned by a. c is loose.
    insert_object(&mut db, &object(&a, &[&format!("{b}-dep")]), 300).unwrap();
    insert_object(&mut db, &object(&b, &[]), 100).unwrap();
    insert_object(&mut db, &object(&c, &[]), 200).unwrap();

    let hashes = evictable_hashes(&db, 1000);
    assert!(!hashes.contains(&b), "referenced object is evictable");
    // c (200) is older than a (300), so it goes first.
    assert_eq!(hashes, vec![c, a.clone()]);

    // Evicting the root frees its dependency for the next pass.
    delete_object(&mut db, &a);
    assert!(evictable_hashes(&db, 1000).contains(&b));
}

#[test]
fn a_live_pin_protects_its_whole_closure_and_an_expired_one_does_not() {
    let mut db = Db::new();
    let (a, b) = ("a".repeat(32), "b".repeat(32));
    // a → b: pinning a must keep b too, via root-first eviction.
    insert_object(&mut db, &object(&a, &[&format!("{b}-dep")]), 100).unwrap();
    insert_object(&mut db, &object(&b, &[]), 100).unwrap();

    pin(&mut db, "release", &a, None, 500).unwrap();
    assert!(
        evictable(&db, 10, 1000).is_empty(),
        "pinned closure appeared as an eviction candidate"
    );

    pin(&mut db, "release", &a, Some(900), 500).unwrap();
    assert!(evictable(&db, 10, 800).is_empty());
    assert_eq!(
        evictable_hashes(&db, 1000),
        vec![a.clone()],
        "expired pin still protecting"
    );

    assert!(unpin(&mut db, "release"));
    assert!(!unpin(&mut db, "release"), "double unpin reported ok");
}

#[test]
fn pinning_an_unknown_hash_is_a_hard_error() {
    let mut db = Db::new();
    assert!(pin(&mut db, "nope", &"f".repeat(32), None, 100).is_err());
}

#[test]
fn re_pushing_a_pinned_object_keeps_it_pinned() {
    let mut db = Db::new();
    let (a, b) = ("a".repeat(32), "b".repeat(32));
    let dep = format!("{b}-dep");
    insert_object(&mut db, &object(&a, &[&dep]), 100).unwrap();
    insert_object(&mut db, &object(&b, &[]), 100).unwrap();
    pin(&mut db, "release", &a, None, 100).unwrap();

    insert_object(&mut db, &object(&a, &[&dep]), 200).unwrap();
    assert!(
        evictable(&db, 10, 1000).is_empty(),
        "re-push dropped the pin: the pinned closure became evictable"
    );
    assert_eq!(get_object(&db, &a).unwrap().references, vec![dep]);
}

#[test]
fn deleting_a_pinned_object_drops_the_pin() {
    let mut db = Db::new();
    let a = "a".repeat(32);
    insert_object(&mut db, &object(&a, &[]), 100).unwrap();
    pin(&mut db, "release", &a, None, 100).unwrap();
    delete_object(&mut db, &a);
    assert_eq!(db.pins.rows.len(), 0);
}

#[test]
fn deleting_debits_usage_and_reconciles() {
    let mut db = Db::new();
    let (a, b) = ("a".repeat(32), "b".repeat(32));
    insert_object(&mut db, &object(&a, &[]), 100).unwrap();
    insert_object(&mut db, &object(&b, &[]), 100).unwrap();
    assert_eq!(total_bytes(&db), 10);

    assert_eq!(delete_object(&mut db, &a), 5);
    assert_eq!(total_bytes(&db), 5);

    // Drift in the counter is corrected from the rows, not compounded.
    db.total_bytes = 9999;
    assert_eq!(reconcile_total_bytes(&mut db), 5);
    assert_eq!(total_bytes(&db), 5);
}

const DAY: i64 = 86400;

#[test]
fn prune_removes_old_closures_but_keeps_what_survivors_need() {
    let mut db = Db::new();
    let [a, b, s, n, p, q, c] =
        ['a', 'b', 's', 'n', 'p', 'q', 'c'].map(|x| x.to_string().repeat(32));
    let dep = |h: &str| format!("{h}-dep");
    // Old root a (self-referencing) → b (exclusive) and s (shared with the new
    // root n). Old root p is pinned, keeping q. Old c is negotiated again today.
    insert_object(&mut db, &object(&a, &[&dep(&a), &dep(&b), &dep(&s)]), 100).unwrap();
    for h in [&b, &s, &q, &c] {
        insert_object(&mut db, &object(h, &[]), 100).unwrap();
    }
    insert_object(&mut db, &object(&p, &[&dep(&q)]), 100).unwrap();
    insert_object(&mut db, &object(&n, &[&dep(&s)]), 10 * DAY).unwrap();
    pin(&mut db, "release", &p, None, 100).unwrap();
    let now = 10 * DAY + 1;
    missing(&mut db, &vec![c.clone()], now);

    assert!(
        prune(&mut db, now - 1, now, true).is_err(),
        "a cutoff inside the in-progress-push window was accepted"
    );

    let expected: Vec<Pruned> = vec![
        (a.clone(), "thing".into(), 5),
        (b.clone(), "thing".into(), 5),
    ];
    assert_eq!(prune(&mut db, 5 * DAY, now, true).unwrap(), expected);
    assert_eq!(total_bytes(&db), 35, "a dry run deleted something");

    assert_eq!(prune(&mut db, 5 * DAY, now, false).unwrap(), expected);
    for h in [&a, &b] {
        assert!(!object_exists(&db, h), "{h} survived the prune");
    }
    for h in [&s, &n, &p, &q, &c] {
        assert!(object_exists(&db, h), "{h} was pruned");
    }
    assert_eq!(total_bytes(&db), 25);
}

#[test]
fn prune_deletes_referrers_before_their_references() {
    let mut db = Db::new();
    let [a, b, c, d] = ['a', 'b', 'c', 'd'].map(|x| x.to_string().repeat(32));
    let dep = |h: &str| format!("{h}-dep");
    // c ← b ← a, c ← d, and b refers to itself.
    insert_object(&mut db, &object(&c, &[]), 100).unwrap();
    insert_object(&mut db, &object(&b, &[&dep(&b), &dep(&c)]), 100).unwrap();
    insert_object(&mut db, &object(&a, &[&dep(&b)]), 100).unwrap();
    insert_object(&mut db, &object(&d, &[&dep(&c)]), 100).unwrap();
    let doomed: Vec<Pruned> = [&c, &b, &a, &d]
        .map(|h| (h.clone(), "thing".into(), 5))
        .into();
    let order: Vec<&str> = referrers_first(&db, &doomed)
        .unwrap()
        .into_iter()
        .map(|i| doomed[i].0.as_str())
        .collect();
    let at = |h: &str| order.iter().position(|x| *x == h).unwrap();
    assert_eq!(order.len(), 4);
    assert!(
        at(&a) < at(&b) && at(&b) < at(&c) && at(&d) < at(&c),
        "{order:?}"
    );
}

#[test]
fn a_cycle_cannot_be_pruned() {
    let mut db = Db::new();
    let (a, b) = (h('a'), h('b'));
    insert_object(&mut db, &object(&a, &[&format!("{b}-dep")]), 100).unwrap();
    insert_object(&mut db, &object(&b, &[&format!("{a}-dep")]), 100).unwrap();
    assert_eq!(
        prune(&mut db, 5 * DAY, 10 * DAY, false),
        Err(DbError::ReferenceCycle)
    );
    assert!(object_exists(&db, &a) && object_exists(&db, &b));
}

#[test]
fn last_accessed_bumps_are_debounced() {
    let mut db = Db::new();
    let (a, b) = ("a".repeat(32), "b".repeat(32));
    insert_object(&mut db, &object(&a, &[]), 1000).unwrap();
    insert_object(&mut db, &object(&b, &[]), 1000).unwrap();
    let last_accessed =
        |db: &Db, hash: &str| get_object_and_last_accessed(db, hash).unwrap().1;

    // Within the debounce window: the row stays put.
    bump_last_accessed(&mut db, &vec![a.clone()], 1001, 86400);
    assert_eq!(last_accessed(&db, &a), 1000);

    // Past it: every row in the batch moves, as the pull path reads it.
    bump_last_accessed(&mut db, &vec![a.clone(), b.clone()], 1000 + 86401, 86400);
    assert_eq!(last_accessed(&db, &a), 1000 + 86401);
    assert_eq!(last_accessed(&db, &b), 1000 + 86401);
}

#[test]
fn brief_listing_carries_what_fsck_needs() {
    let mut db = Db::new();
    let (a, b) = ("a".repeat(32), "b".repeat(32));
    insert_object(&mut db, &object(&a, &[]), 100).unwrap();
    insert_object(&mut db, &object(&b, &[]), 200).unwrap();

    let mut rows: Vec<(String, String, i64, i64)> = all_objects_brief(&db)
        .into_iter()
        .map(|r| (r.hash, r.name, r.created_at, r.file_size))
        .collect();
    rows.sort();
    assert_eq!(
        rows,
        vec![
            (a, "thing".to_string(), 100, 5),
            (b, "thing".to_string(), 200, 5),
        ]
    );
}

#[test]
fn reverse_lookup_finds_referrers_by_hash() {
    let mut db = Db::new();
    let (a, b) = ("a".repeat(32), "b".repeat(32));
    insert_object(&mut db, &object(&a, &[&format!("{b}-dep")]), 100).unwrap();
    let found: Vec<String> = referrers(&db, &b).into_iter().map(|s| s.hash).collect();
    assert_eq!(found, vec![a]);
}

#[test]
fn the_last_object_accessed_is_the_one_probed() {
    let mut db = Db::new();
    assert_eq!(most_recently_accessed(&db), None);
    insert_object(&mut db, &object(&h('a'), &[]), 200).unwrap();
    insert_object(&mut db, &object(&h('b'), &[]), 100).unwrap();
    assert_eq!(most_recently_accessed(&db), Some(h('a')));
}

#[test]
fn listing_pages_without_skipping_or_repeating() {
    let mut db = Db::new();
    for (i, c) in ['a', 'b', 'c', 'd'].iter().enumerate() {
        insert_object(&mut db, &named(&h(*c), "thing", &[]), 100 + i as i64).unwrap();
    }

    let first = list(&db, None, 2, None);
    assert_eq!(first.objects.len(), 2);
    // Newest first.
    assert_eq!(first.objects[0].hash, h('d'));
    assert!(first.next_cursor.is_some());

    let second = list(&db, None, 2, first.next_cursor.as_deref());
    let seen: Vec<&str> = first
        .objects
        .iter()
        .chain(second.objects.iter())
        .map(|o| o.hash.as_str())
        .collect();
    assert_eq!(seen, vec![h('d'), h('c'), h('b'), h('a')]);
    assert!(second.next_cursor.is_none(), "last page must end the walk");
}

#[test]
fn search_filters_by_name() {
    let mut db = Db::new();
    insert_object(&mut db, &named(&h('a'), "hello-1.0", &[]), 100).unwrap();
    insert_object(&mut db, &named(&h('b'), "ripgrep", &[]), 101).unwrap();

    let page = list(&db, Some("hell"), 10, None);
    assert_eq!(page.objects.len(), 1);
    assert_eq!(page.objects[0].name, "hello-1.0");
    assert!(list(&db, Some("nothing"), 10, None).objects.is_empty());
}

#[test]
fn pin_listing_joins_the_store_path_and_keeps_expired_pins_visible() {
    let mut db = Db::new();
    insert_object(&mut db, &named(&h('a'), "hello-1.0", &[]), 100).unwrap();
    pin(&mut db, "release", &h('a'), Some(50), 10).unwrap();

    let got = pins(&db);
    assert_eq!(
        got,
        vec![Pin {
            name: "release".into(),
            store_path_hash: h('a'),
            store_path: format!("/nix/store/{}-hello-1.0", h('a')),
            expires_at: Some(50),
            created_at: 10,
        }]
    );
}

#[test]
fn tree_marks_missing_references_and_truncates_repeats() {
    let mut db = Db::new();
    // root → (mid, missing); mid → shared; root → shared as well.
    let (root, mid, shared, gone) = (h('a'), h('b'), h('c'), h('d'));
    insert_object(
        &mut db,
        &named(
            &root,
            "root",
            &[&format!("{mid}-mid"), &format!("{shared}-shared")],
        ),
        100,
    )
    .unwrap();
    insert_object(
        &mut db,
        &named(
            &mid,
            "mid",
            &[&format!("{shared}-shared"), &format!("{gone}-gone")],
        ),
        100,
    )
    .unwrap();
    insert_object(&mut db, &named(&shared, "shared", &[]), 100).unwrap();

    let found = tree(&db, &root, 10).unwrap();
    let mid_node = &found.children[0];
    assert_eq!(mid_node.hash, mid);

    let gone_node = mid_node.children.iter().find(|c| c.hash == gone).unwrap();
    assert!(gone_node.missing);
    assert!(gone_node.children.is_empty());

    // `shared` is reached twice; the second occurrence does not re-expand.
    let shared_under_mid = mid_node.children.iter().find(|c| c.hash == shared).unwrap();
    let shared_under_root = found.children.iter().find(|c| c.hash == shared).unwrap();
    assert!(shared_under_mid.truncated ^ shared_under_root.truncated);

    assert!(tree(&db, "nope", 10).is_none());
}

#[test]
fn referrers_are_the_reverse_of_references() {
    let mut db = Db::new();
    let (root, dep) = (h('a'), h('b'));
    insert_object(
        &mut db,
        &named(&root, "root", &[&format!("{dep}-dep")]),
        100,
    )
    .unwrap();
    insert_object(&mut db, &named(&dep, "dep", &[]), 100).unwrap();

    let found = referrers(&db, &dep);
    assert_eq!(found.len(), 1);
    assert_eq!(found[0].hash, root);
    assert!(referrers(&db, &root).is_empty());
}

#[test]
fn trees_skip_references_of_an_object_to_itself() {
    let mut db = Db::new();
    let (a, b) = (h('a'), h('b'));
    let (own_a, own_b) = (format!("{a}-a"), format!("{b}-b"));
    insert_object(&mut db, &named(&a, "a", &[&own_a, &own_b]), 100).unwrap();
    insert_object(&mut db, &named(&b, "b", &[&own_b]), 100).unwrap();
    let found = tree(&db, &a, 64).unwrap();
    assert_eq!(found.children.len(), 1);
    assert_eq!(found.children[0].name, own_b);
    assert!(!found.children[0].truncated && found.children[0].children.is_empty());
}

#[test]
fn a_cycle_makes_a_finite_tree() {
    let mut db = Db::new();
    let (a, b) = (h('a'), h('b'));
    insert_object(&mut db, &named(&a, "a", &[&format!("{b}-b")]), 100).unwrap();
    insert_object(&mut db, &named(&b, "b", &[&format!("{a}-a")]), 100).unwrap();
    let found = tree(&db, &a, 64).unwrap();
    assert_eq!(found.children[0].hash, b);
    let back = &found.children[0].children[0];
    assert!(back.truncated && back.children.is_empty());
}

#[test]
fn a_pass_requested_mid_pass_does_not_evict_past_the_low_watermark() {
    // Low watermark 85. A pinned 70-byte filler plus the chain r → d → y of
    // 10-byte objects: one pass evicts r, then (next batch) d, and stops at 80.
    let mut db = Db::new();
    let [filler, r, d, y] = ["f", "r", "d", "y"].map(|c| c.repeat(32));
    insert_object(&mut db, &sized(&filler, 70, &[]), 0).unwrap();
    pin(&mut db, "filler", &filler, None, 0).unwrap();
    insert_object(&mut db, &sized(&r, 10, &[&d]), 0).unwrap();
    insert_object(&mut db, &sized(&d, 10, &[&y]), 0).unwrap();
    insert_object(&mut db, &sized(&y, 10, &[]), 0).unwrap();

    assert!(pass_due(total_bytes(&db), 95));
    let (first, keys) = evict(&mut db, 85, NOW);
    let (second, none) = evict(&mut db, 85, NOW);
    assert!(object_exists(&db, &y), "two passes evicted past the low watermark");
    assert_eq!(total_bytes(&db), 80);
    assert_eq!(first.evicted + second.evicted, 2);
    assert_eq!(
        keys,
        vec![format!("nar/{r}.nar.zst"), format!("nar/{d}.nar.zst")]
    );
    assert!(none.is_empty());
}

#[test]
fn a_pass_that_cannot_reach_the_watermark_says_so() {
    let mut db = Db::new();
    insert_object(&mut db, &sized(&h('a'), 70, &[]), 0).unwrap();
    pin(&mut db, "all", &h('a'), None, 0).unwrap();
    let mut pass = Pass::begin(&mut db, 10);
    while pass.step(&mut db, NOW).is_some() {}
    assert_eq!(
        pass.result,
        PassResult {
            evicted: 0,
            bytes_freed: 0,
            candidates_exhausted: true,
        }
    );
    assert_eq!(
        collected(&pass.result),
        Response::Gc {
            evicted: 0,
            bytes_freed: 0,
            candidates_exhausted: true,
        }
    );
}

#[test]
fn what_was_pushed_lately_is_left_alone() {
    let mut db = Db::new();
    let (old, dep, fresh) = (h('o'), h('d'), h('f'));
    insert_object(&mut db, &sized(&old, 10, &[]), 0).unwrap();
    insert_object(&mut db, &sized(&dep, 10, &[]), 0).unwrap();
    insert_object(&mut db, &sized(&fresh, 10, &[&dep]), NOW - PUSH_GRACE + 1).unwrap();
    let (result, _) = evict(&mut db, 0, NOW);
    assert_eq!((result.evicted, result.candidates_exhausted), (1, true));
    assert!(!object_exists(&db, &old));
    assert!(object_exists(&db, &fresh) && object_exists(&db, &dep));

    // A negotiation that finds the path counts as a push.
    assert!(missing(&mut db, &vec![fresh.clone()], NOW).is_empty());
    assert_eq!(evict(&mut db, 0, NOW + PUSH_GRACE - 1).0.evicted, 0);
    assert_eq!(evict(&mut db, 0, NOW + PUSH_GRACE).0.evicted, 2);
}

const NOW: i64 = 1_000_000;

#[test]
fn end_to_end_against_a_real_in_memory_connection() {
    let mut db = Db::new();
    let hash = "a".repeat(32);
    insert_object(&mut db, &object(&hash, &[]), NOW - 2 * 86400).unwrap();

    let rows = all_objects_brief(&db);
    let in_flight = InFlight::new();
    let (dangling, mismatches) =
        classify_rows(&rows, &vec![], &in_flight, 86400, NOW, false);
    assert_eq!(dangling.len(), 1);

    let repaired = apply_repair(&mut db, &dangling, &mismatches);
    assert_eq!(repaired, 1);
    assert!(!object_exists(&db, &hash));
}

fn key(name: &str, seed: u8) -> SigningKeyFile {
    SigningKeyFile {
        name: name.into(),
        seed: [seed; 32],
    }
}

#[test]
fn resigning_twice_changes_nothing_more() {
    let mut db = Db::new();
    insert_object(&mut db, &object(&h('a'), &[]), 100).unwrap();
    let keys = vec![key("k-1", 7), key("k-2", 8)];
    assert_eq!(resign(&mut db, "/nix/store", &keys).unwrap(), 1);
    let sigs = get_object(&db, &h('a')).unwrap().sigs;
    assert_eq!(sigs.len(), 2);
    assert!(sigs[0].starts_with("k-1:") && sigs[1].starts_with("k-2:"));
    assert_eq!(resign(&mut db, "/nix/store", &keys).unwrap(), 0);
    assert_eq!(get_object(&db, &h('a')).unwrap().sigs, sigs);
    assert!(resign(&mut db, "/nix/store", &vec![]).is_err());
}

#[test]
fn signatures_can_be_replaced() {
    let mut db = Db::new();
    insert_object(&mut db, &object(&h('a'), &[]), 100).unwrap();
    update_sigs(&mut db, &h('a'), &vec!["n:1".into()]);
    assert_eq!(get_object(&db, &h('a')).unwrap().sigs, vec!["n:1"]);
}

#[test]
fn the_operator_deletes_what_is_there_and_is_told_what_is_not() {
    let mut db = Db::new();
    insert_object(&mut db, &object(&h('a'), &[]), 100).unwrap();
    let (deleted, freed, not_there, keys) =
        delete(&mut db, &vec![h('a'), h('b')]);
    assert_eq!((deleted, freed), (1, 5));
    assert_eq!(not_there, vec![h('b')]);
    assert_eq!(keys, vec![format!("nar/{}.nar.zst", h('a'))]);
    assert_eq!(all_hashes(&db).rows.len(), 0);
}

#[test]
fn requests_are_dispatched() {
    let mut db = Db::new();
    insert_object(&mut db, &object(&h('a'), &[]), 100).unwrap();
    let mut in_flight = InFlight::new();
    let _claim = in_flight.claim(&h('b'), Kind::Upload).unwrap();
    assert_eq!(
        status(&db, Some(1000), &in_flight),
        Response::Status {
            objects: 1,
            total_bytes: 5,
            quota_bytes: Some(1000),
            uploads_in_flight: 1,
        }
    );
    let keys = vec![];
    let mut ask = |request: Request| {
        dispatch(request, &mut db, Some(1000), &in_flight, &keys, "/nix/store", 2000)
    };
    assert!(matches!(ask(Request::GcRun), Plan::Collect));
    assert!(matches!(ask(Request::Backup { path: "/x".into() }), Plan::Copy(p) if p == "/x"));
    assert!(matches!(
        ask(Request::Resign),
        Plan::Reply(Response::Error { message }) if message == "no signing keys configured"
    ));
    assert!(matches!(
        ask(Request::Unpin { name: "x".into() }),
        Plan::Reply(Response::Unpin { removed: false })
    ));
    assert!(matches!(
        ask(Request::Pin { name: "x".into(), hash: h('c'), expires_at: None }),
        Plan::Reply(Response::Error { .. })
    ));
    assert!(matches!(
        ask(Request::Delete { hashes: vec![h('a')] }),
        Plan::AfterDeleting { keys, .. } if keys.len() == 1
    ));
}
