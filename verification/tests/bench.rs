use garret::bench::corpus::{
    generate, next_char, rekey, stream_entry, Entry, Filler, Rng,
};
use garret::bench::{
    assemble, collect, failures, gate, is_wanted, preamble_for, pull_requests, slowdowns,
    stream_sizes, times, upload_body, Reply, Step, Tries,
};

#[test]
fn the_same_seed_gives_the_same_corpus() {
    assert_eq!(generate(42, 20, false), generate(42, 20, false));
    assert_ne!(generate(42, 20, false), generate(43, 20, false));
}

#[test]
fn bodies_are_deterministic_and_the_right_length() {
    let entry = &generate(7, 3, false)[0];
    assert_eq!(entry.body(), entry.body());
    assert_eq!(entry.body().len(), entry.size);
}

#[test]
fn compressibility_actually_varies() {
    let squishy = Entry {
        hash: "a".repeat(32),
        name: "x".into(),
        size: 256 * 1024,
        compressibility: 100,
    };
    let solid = Entry {
        compressibility: 0,
        ..squishy.clone()
    };
    let ratio = |e: &Entry| zstd::encode_all(e.body().as_slice(), 3).unwrap().len();
    assert!(ratio(&squishy) < squishy.size / 10);
    assert!(ratio(&solid) > solid.size / 2);
}

#[test]
fn rekeying_moves_every_first_character() {
    // Including the wrap at the end of the alphabet.
    for (input, expected) in [("0aa", '1'), ("zaa", '0'), ("baa", 'c')] {
        assert_eq!(next_char(input), expected);
    }
    assert_eq!(next_char(""), '1');
    assert_eq!(next_char("eaa"), '1');
}

#[test]
fn the_baseline_corpus_matches_the_load_corpus_in_shape() {
    let load = generate(3, 10, false);
    let baseline = rekey(&load);
    // Same work, different keys.
    assert_eq!(
        load.iter().map(|e| e.size).collect::<Vec<_>>(),
        baseline.iter().map(|e| e.size).collect::<Vec<_>>()
    );
    assert_eq!(
        load.iter().map(|e| e.compressibility).collect::<Vec<_>>(),
        baseline
            .iter()
            .map(|e| e.compressibility)
            .collect::<Vec<_>>()
    );
    for (a, b) in load.iter().zip(&baseline) {
        assert_ne!(
            a.hash, b.hash,
            "baseline must not collide with the load run"
        );
    }
}

#[test]
fn the_fat_tail_is_present_when_asked_for() {
    let with = generate(1, 5, true);
    assert_eq!(with.len(), 6);
    assert!(with.last().unwrap().size >= 2 * 1024 * 1024 * 1024);
    assert_eq!(generate(1, 5, false).len(), 5);
}

#[test]
fn the_generator_is_xorshift64star() {
    let mut rng = Rng::new(1);
    assert_eq!(rng.next_u64(), 0x47e4ce4b896cdd1d);
    assert_eq!(Rng::new(0).state, 1);
    assert_eq!(Rng::new(9).below(0), 0);
}

#[test]
fn every_entry_has_a_store_hash() {
    for entry in generate(11, 50, false) {
        assert!(garret::nix_base32::is_store_hash(&entry.hash));
        assert!(entry.size >= 4096 && entry.size < 16 * 1024 * 1024 + 4096);
    }
}

#[test]
fn a_streamed_body_is_the_whole_body_in_pieces() {
    let entry = Entry {
        hash: "0123456789abcdfghijklmnpqrsvwxyz".into(),
        name: "x".into(),
        size: 1000,
        compressibility: 50,
    };
    let mut filler = Filler::new(&entry);
    let mut all = Vec::new();
    loop {
        let piece = filler.next(77);
        if piece.is_empty() {
            break;
        }
        all.extend(piece);
    }
    assert_eq!(all, entry.body());
    let other = stream_entry(1, 1000, 0, 5);
    assert_ne!(other.hash, stream_entry(1, 1000, 1, 5).hash);
    assert_ne!(other.hash, stream_entry(1, 1000, 0, 6).hash);
    assert_eq!(other.name, "bench-stream-1000-0");
}

#[test]
fn an_upload_is_the_metadata_and_the_compressed_body() {
    let entry = Entry {
        hash: "a".repeat(32),
        name: "x".into(),
        size: 5000,
        compressibility: 70,
    };
    let preamble = preamble_for(&entry);
    assert_eq!(preamble.store_path, entry.store_path());
    assert_eq!(preamble.nar_hash, format!("sha256:{}", "0".repeat(52)));
    let body = upload_body(b"{}", &entry, 3).unwrap();
    assert_eq!(&body[..6], [2, 0, 0, 0, b'{', b'}']);
    assert_eq!(zstd::decode_all(&body[6..]).unwrap(), entry.body());
    assert_eq!(assemble(b"", Err("x".into())), Err("compressing: x".into()));
}

#[test]
fn a_shed_upload_is_tried_six_times() {
    let mut tries = Tries::new();
    let mut waits = Vec::new();
    while tries.exhausted().is_none() {
        let reply = if waits.len() % 2 == 0 {
            Reply::Dropped
        } else {
            Reply::Answer { status: 429, body: String::new() }
        };
        let Step::Wait { ms, shed } = tries.next(&reply) else {
            panic!("it is tried again")
        };
        assert_eq!(shed, waits.len() % 2 == 1);
        waits.push(ms);
    }
    assert_eq!(waits, vec![100, 217, 434, 851, 1668, 3285]);
    assert_eq!(
        tries.exhausted().as_deref(),
        Some("still shed or dropped after 6 attempts")
    );
    let mut fresh = Tries::new();
    let answer = |status: u16, body: &str| Reply::Answer { status, body: body.into() };
    assert!(matches!(fresh.next(&answer(200, "")), Step::Done));
    assert!(matches!(
        fresh.next(&answer(500, "x")),
        Step::Fail { text } if text == "500 Internal Server Error: x"
    ));
}

#[test]
fn times_and_slowdowns_come_in_order() {
    let latencies = vec![(1, Some(30)), (0, Some(0)), (2, None), (9, Some(7))];
    let (ok, failed) = times(&latencies);
    assert_eq!(ok, vec![0, 7, 30]);
    assert_eq!(failed, 1);
    // Each against its own baseline, and none where there is none.
    assert_eq!(slowdowns(&latencies, &vec![2, 3, 4]), vec![500, 10_000]);
}

#[test]
fn a_pull_run_asks_for_narinfo_and_nar() {
    let all = generate(5, 1, false);
    let hash = &all[0].hash;
    let requests = pull_requests("http://p", &all, 2);
    assert_eq!(requests.len(), 4);
    assert_eq!(requests[0], (format!("http://p/{hash}.narinfo"), false));
    assert_eq!(requests[3], (format!("http://p/nar/{hash}.nar.zst"), true));
    assert!(is_wanted(true, 302) && !is_wanted(true, 200));
    assert!(is_wanted(false, 200) && !is_wanted(false, 302));
    let outcomes = vec![(false, Some(9)), (true, Some(4)), (false, None), (false, Some(2))];
    assert_eq!(collect(&outcomes, false), vec![2, 9]);
    assert_eq!(collect(&outcomes, true), vec![4]);
    assert_eq!(failures(&outcomes), 1);
}

#[test]
fn only_failures_fail_a_run() {
    assert_eq!(gate(Some(0), &vec![0, 0], Some(0)), None);
    assert_eq!(gate(None, &vec![], None), None);
    assert_eq!(
        gate(Some(2), &vec![1], Some(1)).as_deref(),
        Some("FAIL: 2 push(es) failed")
    );
    assert_eq!(
        gate(Some(0), &vec![0, 1], Some(1)).as_deref(),
        Some("FAIL: streaming push(es) failed")
    );
    assert_eq!(
        gate(None, &vec![], Some(3)).as_deref(),
        Some("FAIL: 3 pull request(s) failed")
    );
    assert_eq!(stream_sizes(3, true).len(), 2);
    assert_eq!(stream_sizes(3, false)[2], (2_147_483_648, 1));
}
