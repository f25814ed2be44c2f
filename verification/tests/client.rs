use garret::client::auth::{
    access_token, credentials_form, declared_max_age, device_form, judge_login, mint_from_env,
    parse_client_credentials, poll_form, refresh_form, rotated, Claims, Login, Mint, Renewal,
    StoredToken, TokenResponse, TokenSource,
};
use garret::client::browse::{object_line, pin_line, render, Pin, Summary, TreeNode};
use garret::client::cli;
use garret::client::config::{self, config_home, jobs, missing_text, Config, RenderError};
use garret::client::discovery::{
    check_key, check_scheme, check_url, discovery_url, judge, Discovery, Oidc,
};
use garret::client::document::SettingError;
use garret::client::doctor::{
    auth_verdict, cache_info_ok, cache_info_verdict, discovery_checks, drift, failed, failure_text,
    keys_verdict, narinfo_verdict, negotiation_verdict, no_puller, path_verdict, probe_hash, run,
    Check, Probe, Status,
};
use garret::client::nixconf::{apply, honoured, lines, nixos_snippet, Outcome};

fn keys() -> Vec<String> {
    vec!["garret-1:AAAA".into(), "garret-2:BBBB".into()]
}

#[test]
fn every_key_lands_on_one_line() {
    let text = lines("https://cache.example", &keys());
    assert!(text.contains("extra-substituters = https://cache.example\n"));
    assert!(text.contains("extra-trusted-public-keys = garret-1:AAAA garret-2:BBBB\n"));
    assert_eq!(text.lines().count(), 2);
}

#[test]
fn the_nixos_snippet_quotes_every_key() {
    let text = nixos_snippet("https://cache.example", &keys());
    assert!(text.contains("substituters = [ \"https://cache.example\" ];"));
    assert!(text.contains("trusted-public-keys = [ \"garret-1:AAAA\" \"garret-2:BBBB\" ];"));
}

#[test]
fn the_cache_is_added_once() {
    let Outcome::Added(first) = apply("max-jobs = 4", "https://c.example", &keys()) else {
        panic!("it is not there yet")
    };
    assert!(first.starts_with("max-jobs = 4\nextra-substituters = https://c.example\n"));
    assert!(matches!(
        apply(&first, "https://c.example", &keys()),
        Outcome::AlreadyPresent
    ));
    assert!(honoured("https://c.example https://cache.nixos.org", "https://c.example"));
    assert!(!honoured("https://cache.nixos.org", "https://c.example"));
}

#[test]
fn urls_must_be_https_except_to_loopback() {
    for ok in [
        "https://cache.example",
        "https://cache.example:8443/sub/",
        "http://127.0.0.1:8080",
        "http://localhost:3000",
        "http://[::1]:80",
    ] {
        check_url("u", ok).unwrap_or_else(|e| panic!("{ok}: {e}"));
    }
    for bad in [
        "http://cache.example",
        "http://127.0.0.1.evil.example",
        "http://localhost.evil.example",
        "ftp://cache.example",
        "cache.example",
        "",
    ] {
        assert!(check_url("u", bad).is_err(), "{bad} was accepted");
    }
    assert!(check_scheme("u", "x", "http", "127.9.9.9").is_ok());
    assert!(check_scheme("u", "x", "http", "cache.example").is_err());
}

#[test]
fn urls_must_not_smuggle_nix_conf_or_nix_syntax() {
    for bad in [
        "https://cache.example\npost-build-hook = /tmp/x",
        "https://cache.example\tx",
        "https://cache.example other",
        "https://cache.example/\"; x = \"",
        "https://cache.example/${x}",
    ] {
        assert!(check_url("u", bad).is_err(), "{bad:?} was accepted");
    }
}

#[test]
fn keys_must_be_name_colon_base64() {
    for ok in [
        "garret-1:AAAA+bb/cc=",
        "cache.nixos.org-1:6NCHdD59X431o0gWypbMrAURkbJ16ZPMQFGspcDShjY=",
    ] {
        check_key(ok).unwrap_or_else(|e| panic!("{ok}: {e}"));
    }
    for bad in [
        "garret-1:AAAA other:BBBB",
        "garret-1:AAAA\npost-build-hook = /tmp/x",
        "garret-1:",
        ":AAAA",
        "garret-1",
        "garret 1:AAAA",
        "garret-1:AA=A",
        "garret-1:AAAA\"",
    ] {
        assert!(check_key(bad).is_err(), "{bad:?} was accepted");
    }
}

fn discovery() -> Discovery {
    Discovery {
        puller_endpoint: Some("https://cache.example".into()),
        public_keys: vec!["garret-1:AAAA+bb/cc=".into()],
        oidc: Some(Oidc {
            issuer: "https://id.example".into(),
            audience: "garret".into(),
            client_id: Some("garret-cli".into()),
        }),
    }
}

#[test]
fn a_document_with_one_bad_value_is_refused() {
    let good = || Discovery {
        public_keys: vec!["garret-1:AAAA".into()],
        ..discovery()
    };
    good().check().unwrap();

    let mut d = good();
    d.puller_endpoint = Some("http://cache.example".into());
    assert!(d.check().is_err());
    let mut d = good();
    d.public_keys
        .push("evil:AAAA\nextra-substituters = http://x".into());
    assert!(d.check().is_err());
    let mut d = good();
    d.oidc.as_mut().unwrap().issuer = "http://id.example".into();
    assert!(d.check().is_err());
    let mut d = good();
    d.oidc.as_mut().unwrap().client_id = Some("a\nb".into());
    assert!(d.check().is_err());
}

#[test]
fn a_server_without_discovery_is_told_apart() {
    let url = discovery_url("https://push.example/");
    assert_eq!(url, "https://push.example/api/v1/discovery");
    assert!(judge(&url, 200, "").is_ok());
    assert!(judge(&url, 404, "").unwrap_err().contains("404 Not Found"));
    assert_eq!(
        judge(&url, 500, " oops\n").unwrap_err(),
        "discovery failed with 500 Internal Server Error: oops"
    );
}

#[test]
fn rendering_marks_missing_and_truncated_nodes() {
    let node = |name: &str, missing: bool, truncated: bool, children: Vec<TreeNode>| TreeNode {
        name: name.into(),
        missing,
        truncated,
        children,
    };
    let tree = node(
        "root",
        false,
        false,
        vec![
            node(
                "dep",
                false,
                false,
                vec![node("deep", false, false, vec![])],
            ),
            node("gone", true, false, vec![]),
            node("seen-before", false, true, vec![]),
        ],
    );
    let mut out = String::new();
    render(&tree, 0, &mut out);
    assert_eq!(
        out,
        "root\n  dep\n    deep\n  gone (missing)\n  seen-before (…)\n"
    );
}

#[test]
fn pins_and_objects_have_one_line_each() {
    let mut pin = Pin {
        name: "release".into(),
        store_path_hash: "0123456789abcdfg".into(),
        store_path: "/nix/store/x".into(),
        expires_at: None,
    };
    assert_eq!(
        pin_line(&pin, 100),
        "release              01234567  /nix/store/x (permanent)"
    );
    pin.expires_at = Some(100);
    assert!(pin_line(&pin, 100).ends_with("(expired)"));
    assert!(pin_line(&pin, 99).ends_with("(expires at 100)"));
    let object = Summary {
        hash: "0123456789".into(),
        name: "hello".into(),
        nar_size: 1,
        file_size: 2,
    };
    assert_eq!(
        object_line(&object, "2 B"),
        format!("01234567  {:<40} {:>12} on disk", "hello", "2 B")
    );
}

#[test]
fn renders_a_parseable_config() {
    let text = config::render("https://push.example", &discovery()).unwrap();
    let cfg = config::parse(&text).unwrap();
    assert_eq!(cfg.endpoint, "https://push.example");
    assert_eq!(
        cfg.puller_endpoint.as_deref(),
        Some("https://cache.example")
    );
    assert_eq!(cfg.public_keys, ["garret-1:AAAA+bb/cc="]);
    assert_eq!(cfg.oidc.issuer, "https://id.example");
    assert_eq!(cfg.oidc.client_id.as_deref(), Some("garret-cli"));
    assert_eq!(cfg.oidc.audience, "garret");
    assert_eq!(cfg.oidc.resource, None);
    // Defaults survive being absent from the template.
    assert_eq!(cfg.jobs, jobs());
    assert_eq!((cfg.jobs, cfg.zstd_level, cfg.max_retries), (8, 3, 5));
    assert_eq!(
        text,
        "# Written by `garret login`. Re-run with --force to regenerate.\n\
         endpoint = \"https://push.example\"\n\
         puller_endpoint = \"https://cache.example\"\n\
         public_keys = [\"garret-1:AAAA+bb/cc=\"]\n\
         \n\
         [oidc]\n\
         issuer = \"https://id.example\"\n\
         client_id = \"garret-cli\"\n\
         audience = \"garret\"\n\
         \n\
         # Optional: jobs = 8, zstd_level = 3, max_retries = 5\n"
    );
}

#[test]
fn renders_a_parseable_config_when_the_server_advertises_little() {
    let sparse = Discovery {
        puller_endpoint: None,
        public_keys: vec![],
        ..discovery()
    };
    let text = config::render("https://push.example", &sparse).unwrap();
    let cfg = config::parse(&text).unwrap();
    assert!(cfg.puller_endpoint.is_none());
    assert!(cfg.public_keys.is_empty());
}

#[test]
fn every_printable_string_is_read_back() {
    for odd in [
        "", " ", "a'b", "a\"b", "a\\b", "'\"", "\"\"'", "'\"\"\"", "''\\", "\\''", "'''\"\\#[x]",
        "\"\"\"'''\\", " # x = [1]",
    ] {
        let mut d = discovery();
        d.puller_endpoint = Some(odd.into());
        d.public_keys = vec![odd.into(), "k, l".into(), odd.into()];
        d.oidc.as_mut().unwrap().audience = odd.into();
        let text = config::render(odd, &d).unwrap();
        let cfg = config::parse(&text).unwrap();
        assert_eq!(cfg.endpoint, odd);
        assert_eq!(cfg.puller_endpoint.as_deref(), Some(odd));
        assert_eq!(cfg.public_keys, [odd, "k, l", odd]);
        assert_eq!(cfg.oidc.audience, odd);
    }
}

#[test]
fn settings_are_read_or_refused() {
    let front = "endpoint = 'e'\njobs = 2\nzstd_level = -1\nmax_retries = 0\n";
    let oidc = "[oidc]\nissuer = 'i'\naudience = 'a'\nresource = 'r'\n";
    let watch = "[watch]\nnix_db = '/db'\nupstream_keys = []\nexclude_patterns = ['x', 'y']\n\
                 poll_interval_secs = 7\nmax_attempts = 1\ncredentials_file = '/c'\n";
    let cfg = config::parse(&format!("{front}{oidc}{watch}")).unwrap();
    assert_eq!((cfg.jobs, cfg.zstd_level, cfg.max_retries), (2, -1, 0));
    assert_eq!(cfg.oidc.client_id, None);
    assert_eq!(cfg.oidc.resource.as_deref(), Some("r"));
    assert_eq!(cfg.upstream_keys, ["cache.nixos.org-1"]);
    assert_eq!(cfg.watch.nix_db, "/db");
    assert_eq!(cfg.watch.cursor_path, "/var/lib/garret/watcher-cursor");
    assert_eq!(cfg.watch.upstream_keys, Some(vec![]));
    assert_eq!(cfg.watch.exclude_patterns, ["x", "y"]);
    assert_eq!((cfg.watch.poll_interval_secs, cfg.watch.max_attempts), (7, 1));
    assert_eq!(cfg.watch.credentials_file.as_deref(), Some("/c"));

    let refused = |text: &str| config::parse(text).unwrap_err().message();
    assert_eq!(refused(oidc), "missing field `endpoint`");
    assert_eq!(refused(front), "missing field `oidc`");
    assert_eq!(
        refused(&format!("{front}[oidc]\nissuer = 'i'\n")),
        "missing field `audience`"
    );
    assert_eq!(refused(&format!("job = 1\n{front}{oidc}")), "unknown field `job`");
    assert_eq!(refused(&format!("{front}{oidc}x = 1\n")), "unknown field `x`");
    assert_eq!(
        refused(&format!("{front}{oidc}[watch]\njobs = 1\n")),
        "unknown field `jobs`"
    );
    assert_eq!(
        refused(&format!("endpoint = 1\n{oidc}")),
        "invalid value for `endpoint`"
    );
    assert_eq!(
        refused(&format!("endpoint = ''\njobs = -1\n{oidc}")),
        "invalid value for `jobs`"
    );
    assert_eq!(refused("endpoint = ''\noidc = 1\n"), "invalid value for `oidc`");
    assert_eq!(
        refused(&format!("{front}public_keys = ['a', 1]\n{oidc}")),
        "invalid value for `public_keys`"
    );
    assert_eq!(
        refused(&format!("{front}{oidc}[watch]\nmax_attempts = 4294967296\n")),
        "invalid value for `max_attempts`"
    );
    assert!(matches!(config::parse("endpoint"), Err(SettingError::Syntax(_))));
}

#[test]
fn rendering_refuses_a_server_that_advertises_no_client_id() {
    let no_oidc = Discovery {
        oidc: None,
        ..discovery()
    };
    assert!(config::render("https://push.example", &no_oidc).is_err());
    let mut no_client = discovery();
    no_client.oidc.as_mut().unwrap().client_id = None;
    assert_eq!(
        config::render("https://push.example", &no_client),
        Err(RenderError::NoClientId)
    );
}

#[test]
fn files_are_where_the_environment_says() {
    assert_eq!(config_home(Some("/x"), Some("/h")).as_deref(), Some("/x"));
    assert_eq!(config_home(None, Some("/h")).as_deref(), Some("/h/.config"));
    assert_eq!(config_home(None, None), None);
    assert_eq!(config::path("/h/.config"), "/h/.config/garret/config.toml");
    assert_eq!(config::token_path("/x/"), "/x/garret/token.json");
    assert_eq!(
        missing_text("/x"),
        "no config at /x — run `garret login <pusher-url>` to create one"
    );
}

fn cfg() -> Config {
    Config {
        endpoint: "https://push.example".into(),
        oidc: config::Oidc {
            issuer: "https://id.example".into(),
            client_id: Some("garret-cli".into()),
            audience: "garret".into(),
            resource: None,
        },
        jobs: 8,
        zstd_level: 3,
        max_retries: 5,
        puller_endpoint: Some("https://cache.example".into()),
        public_keys: vec!["garret-1:AAAA=".into()],
        upstream_keys: vec!["cache.nixos.org-1".into()],
        watch: Default::default(),
    }
}

fn advertised() -> Discovery {
    Discovery {
        public_keys: vec!["garret-1:AAAA=".into()],
        ..discovery()
    }
}

#[test]
fn a_matching_config_has_no_drift() {
    assert!(drift(&cfg(), &advertised()).is_empty());
}

#[test]
fn every_drifted_field_is_named() {
    let d = Discovery {
        puller_endpoint: Some("https://cache2.example".into()),
        oidc: Some(Oidc {
            issuer: "https://id2.example".into(),
            audience: "garret2".into(),
            client_id: Some("garret-cli-2".into()),
        }),
        ..advertised()
    };
    let drifted = drift(&cfg(), &d);
    assert_eq!(drifted.len(), 4, "{drifted:?}");
    assert!(drifted[0].contains("puller_endpoint"));
}

#[test]
fn unadvertised_fields_are_not_drift() {
    let sparse = Discovery {
        puller_endpoint: None,
        oidc: None,
        ..advertised()
    };
    assert!(drift(&cfg(), &sparse).is_empty());
}

#[test]
fn matching_keys_pass() {
    let (status, detail) = keys_verdict(&vec!["a:1".into()], &vec!["a:1".into()]);
    assert_eq!(status, Status::Pass);
    assert!(detail.contains("all advertised"));
}

#[test]
fn no_configured_keys_fail() {
    let (status, _) = keys_verdict(&vec![], &vec!["a:1".into()]);
    assert_eq!(status, Status::Fail);
}

#[test]
fn a_stale_configured_key_fails_and_is_named() {
    let (status, detail) = keys_verdict(&vec!["old:1".into()], &vec!["new:2".into()]);
    assert_eq!(status, Status::Fail);
    assert!(detail.contains("old:1"));
}

#[test]
fn newer_server_keys_pass_with_a_nudge() {
    let (status, detail) =
        keys_verdict(&vec!["a:1".into()], &vec!["a:1".into(), "b:2".into()]);
    assert_eq!(status, Status::Pass);
    assert!(detail.contains("garret login --force"));
}

#[test]
fn cache_info_is_recognised_by_its_store_dir() {
    assert!(cache_info_ok(
        "StoreDir: /nix/store\nWantMassQuery: 1\nPriority: 40\n"
    ));
    assert!(!cache_info_ok("<html>404 not found</html>"));
}

#[test]
fn probe_hash_accepts_paths_and_bare_hashes() {
    assert_eq!(
        probe_hash("/nix/store/v2xb3fmd3qd34s7q7sngajj8rjl5k25j-payload"),
        Ok("v2xb3fmd3qd34s7q7sngajj8rjl5k25j")
    );
    assert_eq!(
        probe_hash("v2xb3fmd3qd34s7q7sngajj8rjl5k25j"),
        Ok("v2xb3fmd3qd34s7q7sngajj8rjl5k25j")
    );
    assert!(probe_hash("hello").is_err());
    assert!(probe_hash("/nix/store/short-name").is_err());
}

fn answered(status: u16, body: &str) -> Probe {
    Probe::Answered {
        status,
        body: body.into(),
    }
}

#[test]
fn a_diagnosis_names_the_layer_that_fails() {
    let fine = discovery_checks(&cfg(), &Ok(advertised()));
    assert_eq!(fine.len(), 3);
    assert_eq!(failed(&fine), 0);
    let auth = auth_verdict(&Ok(()), &answered(401, " no\n"), None);
    assert_eq!(auth.status, Status::Fail);
    assert!(auth.detail.ends_with("401 Unauthorized: no"), "{}", auth.detail);
    let accepted = auth_verdict(&Ok(()), &answered(200, ""), Some("me"));
    assert!(accepted.detail.contains("subject me"));
    assert!(cache_info_verdict("u", &answered(200, "StoreDir: /nix/store\n")).is_none());
    assert!(cache_info_verdict("u", &answered(200, "<html>")).is_some());
    assert_eq!(
        narinfo_verdict("u", "h", &answered(404, "")).status,
        Status::Pass
    );
    assert!(negotiation_verdict(&Probe::Unanswered("x".into()))
        .unwrap()
        .detail
        .contains("Negotiation failed: x"));
    let held = path_verdict("/p", "h", &vec![]);
    let missing = path_verdict("/p", "h", &vec!["h".into()]);
    assert_ne!(held.detail, missing.detail);
    let all = run(fine, auth, no_puller(), true, Some(held));
    assert_eq!(all.len(), 6);
    assert!(failure_text(&all).unwrap().contains("check(s) failed"));
    assert_eq!(Check::skip("x").status.as_str(), "skip");
    assert!(Check::pass("auth", "ok".into()).line().starts_with("pass auth "));
}

#[test]
fn enqueue_prefers_argv_and_falls_back_to_out_paths() {
    let argv = vec!["/nix/store/aaa-x".to_owned()];
    assert_eq!(
        cli::enqueue_paths(argv.clone(), Some("/nix/store/bbb-y")),
        argv
    );
    assert_eq!(
        cli::enqueue_paths(vec![], Some(" /nix/store/aaa-x  /nix/store/bbb-y ")),
        ["/nix/store/aaa-x", "/nix/store/bbb-y"]
    );
    assert!(cli::enqueue_paths(vec![], None).is_empty());
    assert!(cli::enqueue_paths(vec![], Some("  ")).is_empty());
    assert_eq!(
        cli::wake_message(&vec!["a".into(), "b".into()]).as_deref(),
        Some("a b")
    );
    assert_eq!(cli::wake_message(&vec![]), None);
}

#[test]
fn durations_are_told_in_their_largest_fitting_unit() {
    assert_eq!(cli::human_duration(0), "expired");
    assert_eq!(cli::human_duration(-5), "expired");
    assert_eq!(cli::human_duration(89), "in 89s");
    assert_eq!(cli::human_duration(90), "in 1m");
    assert_eq!(cli::human_duration(5400), "in 1h");
    assert_eq!(cli::human_duration(172_800), "in 2d");
}

#[test]
fn logging_in_never_replaces_a_config_unasked() {
    assert!(matches!(
        cli::login(None, false, "/c"),
        cli::Login::Refuse { text } if text == missing_text("/c")
    ));
    assert!(matches!(cli::login(None, true, "/c"), cli::Login::Again));
    assert!(matches!(
        cli::login(Some("https://p"), true, "/c"),
        cli::Login::Discover { url } if url == "https://p"
    ));
    let made = cli::login_config("https://p.example/", &discovery(), "/c", None, false).unwrap();
    assert!(made.contains("endpoint = \"https://p.example\"\n"));
    let refused =
        cli::login_config("https://p.example", &discovery(), "/c", Some("old\n"), false)
            .unwrap_err();
    assert!(refused.starts_with("/c already exists. Re-run with --force"));
    assert!(refused.ends_with("current contents:\n\nold)"));
    assert_eq!(
        cli::login_config("https://p.example", &discovery(), "/c", Some("old\n"), true),
        Ok(made)
    );
    assert_eq!(cli::login_client(&cfg()), Ok("garret-cli".into()));
}

#[test]
fn a_machine_knows_who_it_is() {
    let claims = Claims {
        sub: Some("me".into()),
        exp: Some(1000),
        iat: None,
        aud: vec![],
    };
    let lines = cli::whoami(&cfg(), &claims, 940);
    assert_eq!(lines[0], "endpoint   https://push.example");
    assert_eq!(lines[4], "subject    me");
    assert_eq!(lines[5], "expires    1000 (in 60s)");
    assert_eq!(
        cli::token_rejected(403, " no\n"),
        "the Pusher rejected this token with 403 Forbidden: no"
    );
}

#[test]
fn nix_is_pointed_at_the_cache_only_with_keys() {
    assert_eq!(cli::use_target(&cfg()), Ok("https://cache.example".into()));
    let mut keyless = cfg();
    keyless.public_keys = vec![];
    assert!(cli::use_target(&keyless)
        .unwrap_err()
        .contains("garret login --force https://push.example`"));
    let mut nowhere = cfg();
    nowhere.puller_endpoint = None;
    assert!(cli::use_target(&nowhere).is_err());
    assert!(cli::browse_target(&nowhere).is_err());
    let printed = cli::use_printed("https://c", &keys());
    assert!(printed.contains("\n# Or, on NixOS:\n\nnix.settings = {"));
    assert!(cli::ignored_warning("https://c", &keys()).contains("trusted-users"));
}

fn source() -> TokenSource {
    TokenSource::new(Mint::Stored { resource: None })
}

#[test]
fn a_github_length_token_is_reminted_once_it_is_four_minutes_old() {
    let mut tokens = source();
    assert_eq!(tokens.get(0), None);
    tokens.minted("first".into(), Some(1300), Some(1000), 0);
    assert_eq!(tokens.get(239_000).as_deref(), Some("first"));
    assert_eq!(tokens.get(241_000), None);
    tokens.minted("second".into(), Some(1300), Some(1000), 241_000);
    assert_eq!(tokens.get(241_000).as_deref(), Some("second"));
}

#[test]
fn a_token_without_a_declared_lifetime_is_held_until_rejected() {
    let mut tokens = source();
    tokens.minted("first".into(), None, None, 0);
    assert_eq!(tokens.get(86_400_000).as_deref(), Some("first"));
    assert!(matches!(tokens.renew("first"), Renewal::Mint));
    tokens.minted("second".into(), None, None, 86_400_000);
    assert_eq!(tokens.get(86_400_000).as_deref(), Some("second"));
}

#[test]
fn concurrent_401s_for_one_token_mint_one_replacement() {
    let mut tokens = source();
    tokens.minted("first".into(), None, None, 0);
    assert!(matches!(tokens.renew("first"), Renewal::Mint));
    tokens.minted("second".into(), None, None, 0);
    for _ in 0..2 {
        assert!(matches!(tokens.renew("first"), Renewal::Use(t) if t == "second"));
    }
    // The replacement rejected in turn is a new 401, and mints again.
    assert!(matches!(tokens.renew("second"), Renewal::Mint));
    let given = TokenSource::new(Mint::Given("x".into()));
    assert!(matches!(given.renew("x"), Renewal::Never));
}

#[test]
fn tokens_are_minted_by_what_the_environment_offers() {
    let some = |s: &str| Some(s.to_owned());
    assert!(matches!(
        mint_from_env(some("t"), some("u"), some("r"), "a", None),
        Mint::Given(t) if t == "t"
    ));
    assert!(matches!(
        mint_from_env(None, some("u"), some("r"), "a", None),
        Mint::Github { audience, .. } if audience == "a"
    ));
    assert!(matches!(
        mint_from_env(None, some("u"), None, "a", Some("res")),
        Mint::Stored { resource: Some(r) } if r == "res"
    ));
    assert_eq!(declared_max_age(Some(1300), Some(1000)), Some(240));
    assert_eq!(declared_max_age(Some(1010), Some(1000)), Some(0));
    assert_eq!(declared_max_age(None, Some(1000)), None);
}

fn field<'a>(form: &'a [(String, String)], name: &str) -> Option<&'a str> {
    form.iter().find(|f| f.0 == name).map(|f| f.1.as_str())
}

#[test]
fn grants_are_asked_for_in_their_forms() {
    let device = device_form("cli", Some("https://r"));
    assert_eq!(field(&device, "client_id"), Some("cli"));
    assert_eq!(field(&device, "resource"), Some("https://r"));
    let poll = poll_form("cli", "code", None);
    assert_eq!(field(&poll, "device_code"), Some("code"));
    assert_eq!(field(&poll, "resource"), None);
    let stored = StoredToken {
        refresh_token: "r".into(),
        issuer: "i".into(),
        client_id: "cli".into(),
    };
    let refresh = refresh_form(&stored, None);
    assert_eq!(field(&refresh, "grant_type"), Some("refresh_token"));
    assert_eq!(field(&refresh, "refresh_token"), Some("r"));
    let own = credentials_form("id", "secret", None);
    assert_eq!(field(&own, "grant_type"), Some("client_credentials"));
    assert_eq!(field(&own, "client_secret"), Some("secret"));
}

#[test]
fn a_login_waits_fails_or_is_approved() {
    let response = |access: Option<&str>, refresh: Option<&str>, error: Option<&str>| TokenResponse {
        access_token: access.map(str::to_owned),
        refresh_token: refresh.map(str::to_owned),
        error: error.map(str::to_owned),
    };
    assert!(matches!(
        judge_login(response(None, None, Some("authorization_pending")), "i", "c"),
        Login::Pending
    ));
    assert!(matches!(
        judge_login(response(None, None, Some("access_denied")), "i", "c"),
        Login::Failed(e) if e.contains("access_denied")
    ));
    let Login::Approved { access_token: token, stored } =
        judge_login(response(Some("a"), Some("r"), None), "i", "c")
    else {
        panic!("the login is approved")
    };
    assert_eq!(token, "a");
    assert_eq!(stored.unwrap().refresh_token, "r");
    assert!(access_token(&response(None, None, None)).is_err());
    assert!(rotated(None, "i", "c").is_none());
    assert_eq!(rotated(Some("r".into()), "i", "c").unwrap().client_id, "c");
    assert_eq!(
        parse_client_credentials(" id:se:cret\n"),
        Ok(("id".into(), "se:cret".into()))
    );
    assert!(parse_client_credentials("nothing").is_err());
}
