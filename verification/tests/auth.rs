use base64::Engine;
use garret::auth::{
    authorize, grant, jwks_url, kid_or_malformed, loggable, openid_configuration_url, ref_matches,
    shorten, token_kid, token_payload, Authenticator, Claims, Denied, Issuer, KeySource, KeyStep,
    Outcome, TokenError, KEY_TTL_MS, MIN_REFRESH_MS,
};
use garret::config::IssuerConfig;

fn b64url(bytes: &[u8]) -> String {
    base64::engine::general_purpose::URL_SAFE_NO_PAD.encode(bytes)
}

fn github(owner: &str, refs: &[&str]) -> IssuerConfig {
    IssuerConfig {
        issuer: "https://token.actions.githubusercontent.com".into(),
        audience: "garret".into(),
        client_id: None,
        jwks_url: None,
        github_owner_id: Some(owner.into()),
        ref_patterns: refs.iter().map(|r| (*r).to_owned()).collect(),
        ref_protected: None,
        repository_ids: vec![],
        event_names: vec![],
        job_workflow_refs: vec![],
        allowed_groups: vec![],
    }
}

fn claims(owner: Option<&str>, git_ref: Option<&str>, groups: &[&str]) -> Claims {
    Claims {
        iss: "https://token.actions.githubusercontent.com".into(),
        sub: "repo:me/thing:ref:refs/heads/main".into(),
        groups: groups.iter().map(|g| (*g).to_owned()).collect(),
        ref_protected: None,
        repository_owner_id: owner.map(str::to_owned),
        git_ref: git_ref.map(str::to_owned),
        repository_id: None,
        event_name: None,
        job_workflow_ref: None,
    }
}

#[test]
fn github_owner_must_match() {
    assert!(authorize(&github("1234", &[]), &claims(Some("1234"), None, &[])).is_ok());
    assert!(authorize(&github("1234", &[]), &claims(Some("9999"), None, &[])).is_err());
    // A token with no owner claim must not pass an owner-scoped issuer.
    assert!(authorize(&github("1234", &[]), &claims(None, None, &[])).is_err());
}

#[test]
fn ref_patterns_gate_when_configured() {
    let cfg = github("1234", &["refs/heads/main", "refs/tags/*"]);
    assert!(authorize(&cfg, &claims(Some("1234"), Some("refs/heads/main"), &[])).is_ok());
    assert!(authorize(&cfg, &claims(Some("1234"), Some("refs/tags/v1"), &[])).is_ok());
    assert!(authorize(&cfg, &claims(Some("1234"), Some("refs/heads/wip"), &[])).is_err());
    // Absent ref claim must fail closed, not match the empty string.
    assert!(authorize(&cfg, &claims(Some("1234"), None, &[])).is_err());
}

#[test]
fn ref_protected_gates_when_configured() {
    let mut cfg = github("1234", &["refs/heads/main"]);
    cfg.ref_protected = Some(true);

    let mut protected_main = claims(Some("1234"), Some("refs/heads/main"), &[]);
    protected_main.ref_protected = Some("true".into());
    assert!(authorize(&cfg, &protected_main).is_ok());

    let mut unprotected_main = claims(Some("1234"), Some("refs/heads/main"), &[]);
    unprotected_main.ref_protected = Some("false".into());
    assert!(authorize(&cfg, &unprotected_main).is_err());

    // An absent claim must fail closed when protection is required.
    assert!(authorize(&cfg, &claims(Some("1234"), Some("refs/heads/main"), &[])).is_err());

    // The inverse setting remains useful for explicitly unprotected refs.
    cfg.ref_protected = Some(false);
    assert!(authorize(&cfg, &unprotected_main).is_ok());
    assert!(authorize(&cfg, &protected_main).is_err());
}

#[test]
fn repository_ids_gate_when_configured() {
    let mut cfg = github("1234", &[]);
    cfg.repository_ids = vec!["42".into(), "43".into()];
    let mut c = claims(Some("1234"), None, &[]);
    c.repository_id = Some("43".into());
    assert!(authorize(&cfg, &c).is_ok());
    // Another repo of the same owner is exactly what this narrows away.
    c.repository_id = Some("99".into());
    assert!(authorize(&cfg, &c).is_err());
    c.repository_id = None;
    assert!(authorize(&cfg, &c).is_err());
}

#[test]
fn event_names_gate_when_configured() {
    let mut cfg = github("1234", &["refs/heads/main"]);
    cfg.event_names = vec!["push".into(), "workflow_dispatch".into()];
    let with_event = |event: Option<&str>| {
        let mut c = claims(Some("1234"), Some("refs/heads/main"), &[]);
        c.event_name = event.map(str::to_owned);
        authorize(&cfg, &c)
    };
    assert!(with_event(Some("push")).is_ok());
    assert!(with_event(Some("workflow_dispatch")).is_ok());
    // Both run on the default branch even when a stranger's PR set them off.
    assert!(with_event(Some("pull_request_target")).is_err());
    assert!(with_event(Some("workflow_run")).is_err());
    assert!(with_event(None).is_err());
}

#[test]
fn job_workflow_refs_gate_when_configured() {
    let mut cfg = github("1234", &[]);
    cfg.job_workflow_refs = vec![
        "me/thing/.github/workflows/ci.yml@refs/heads/main".into(),
        "me/other/.github/workflows/release.yml@refs/tags/v*".into(),
    ];
    let with_ref = |r: Option<&str>| {
        let mut c = claims(Some("1234"), None, &[]);
        c.job_workflow_ref = r.map(str::to_owned);
        authorize(&cfg, &c)
    };
    assert!(with_ref(Some("me/thing/.github/workflows/ci.yml@refs/heads/main")).is_ok());
    assert!(with_ref(Some("me/other/.github/workflows/release.yml@refs/tags/v1.2")).is_ok());
    // Another workflow in an allowed repo, and a third-party reusable workflow
    // called from one, both carry the caller's other claims.
    assert!(with_ref(Some("me/thing/.github/workflows/lint.yml@refs/heads/main")).is_err());
    assert!(with_ref(Some("them/tools/.github/workflows/build.yml@refs/heads/main")).is_err());
    assert!(with_ref(None).is_err());
}

#[test]
fn recommended_policy_reads_real_github_claim_names() {
    let mut cfg = github("31970261", &["refs/heads/main"]);
    cfg.ref_protected = Some(true);
    cfg.repository_ids = vec!["1324491067".into()];
    cfg.event_names = vec!["push".into(), "workflow_dispatch".into()];
    cfg.job_workflow_refs = vec!["jeiang/garret/.github/workflows/ci.yml@refs/heads/main".into()];
    // Shape of a GitHub Actions ID token payload: every claim a string.
    let payload = |event: &str| {
        let json: serde_json::Value = serde_json::from_str(&format!(
            r#"{{
                "iss": "https://token.actions.githubusercontent.com",
                "sub": "repo:jeiang/garret:ref:refs/heads/main",
                "aud": "garret",
                "ref": "refs/heads/main",
                "ref_protected": "true",
                "repository": "jeiang/garret",
                "repository_id": "1324491067",
                "repository_owner_id": "31970261",
                "event_name": "{event}",
                "workflow_ref": "jeiang/garret/.github/workflows/ci.yml@refs/heads/main",
                "job_workflow_ref": "jeiang/garret/.github/workflows/ci.yml@refs/heads/main"
            }}"#
        ))
        .unwrap();
        let text = |name: &str| json[name].as_str().map(str::to_owned);
        Claims {
            iss: text("iss").unwrap(),
            sub: text("sub").unwrap(),
            groups: vec![],
            ref_protected: text("ref_protected"),
            repository_owner_id: text("repository_owner_id"),
            git_ref: text("ref"),
            repository_id: text("repository_id"),
            event_name: text("event_name"),
            job_workflow_ref: text("job_workflow_ref"),
        }
    };
    assert!(authorize(&cfg, &payload("push")).is_ok());
    assert!(authorize(&cfg, &payload("pull_request_target")).is_err());
}

#[test]
fn pocket_id_grants_on_audience_alone_unless_groups_are_set() {
    let mut cfg = dev_issuer();
    cfg.issuer = "https://id.example".into();
    assert!(authorize(&cfg, &claims(None, None, &[])).is_ok());

    cfg.allowed_groups = vec!["builders".into()];
    assert!(authorize(&cfg, &claims(None, None, &["builders"])).is_ok());
    assert!(authorize(&cfg, &claims(None, None, &["others"])).is_err());
    assert!(authorize(&cfg, &claims(None, None, &[])).is_err());
}

#[test]
fn every_refusal_has_its_reason() {
    let none = claims(None, None, &[]);
    let cfg = github("1234", &["refs/tags/*"]);
    assert_eq!(authorize(&cfg, &none), Err(Denied::NoOwner));
    let other = claims(Some("9999"), None, &[]);
    assert_eq!(authorize(&cfg, &other), Err(Denied::Owner));
    assert_eq!(
        Denied::Owner.message(&other),
        "repository owner is not authorized"
    );
    let owned = claims(Some("1234"), Some("refs/heads/x"), &[]);
    assert_eq!(authorize(&cfg, &owned), Err(Denied::Ref));
    let mut plain = github("1234", &[]);
    plain.event_names = vec!["push".into()];
    assert_eq!(authorize(&plain, &owned), Err(Denied::NoEventName));
    plain.event_names = vec![];
    plain.ref_protected = Some(true);
    assert_eq!(authorize(&plain, &owned), Err(Denied::NoRefProtected));
    plain.ref_protected = None;
    plain.repository_ids = vec!["1".into()];
    assert_eq!(authorize(&plain, &owned), Err(Denied::NoRepositoryId));
    let mut groups = dev_issuer();
    groups.allowed_groups = vec!["a".into()];
    assert_eq!(authorize(&groups, &none), Err(Denied::Group));
    assert_eq!(
        grant(&groups, &none).unwrap_err(),
        (Outcome::Unauthorized, Denied::Group)
    );
    let subject = grant(&dev_issuer(), &none).unwrap();
    assert_eq!(
        subject.0,
        "https://token.actions.githubusercontent.com#repo:me/thing:ref:refs/heads/main"
    );
}

#[test]
fn a_pattern_matches_by_its_prefix() {
    assert!(ref_matches("refs/tags/*", "refs/tags/v1"));
    assert!(!ref_matches("refs/tags/*", "refs/tag"));
    assert!(ref_matches("refs/heads/main", "refs/heads/main"));
    assert!(!ref_matches("refs/heads/main", "refs/heads/main2"));
}

#[test]
fn an_authenticator_with_no_issuers_is_refused() {
    assert!(Authenticator::new(vec![]).is_err());
}

#[test]
fn issuer_is_read_from_the_payload_for_routing() {
    let payload = b64url(br#"{"iss":"https://id.example"}"#);
    let bytes = token_payload(&format!("header.{payload}.sig")).unwrap();
    let json: serde_json::Value = serde_json::from_slice(&bytes).unwrap();
    assert_eq!(json["iss"], "https://id.example");
    assert_eq!(token_payload("nope"), Err(TokenError::NotAToken));
    assert_eq!(token_payload("a.!!.c"), Err(TokenError::NotBase64));
    assert_eq!(
        TokenError::NotBase64.message(),
        "token payload is not base64url"
    );
}

const DEV_ISSUER: &str = "https://issuer.example";

fn dev_issuer() -> IssuerConfig {
    IssuerConfig {
        issuer: DEV_ISSUER.into(),
        audience: "garret".into(),
        client_id: None,
        jwks_url: None,
        github_owner_id: None,
        ref_patterns: vec![],
        ref_protected: None,
        repository_ids: vec![],
        event_names: vec![],
        job_workflow_refs: vec![],
        allowed_groups: vec![],
    }
}

/// Routes to `iss` and names `kid`, with a signature nothing verifies.
fn token_from(iss: &str, kid: &str) -> String {
    let header = b64url(format!(r#"{{"alg":"RS256","kid":"{kid}"}}"#).as_bytes());
    let payload = b64url(format!(r#"{{"iss":"{iss}"}}"#).as_bytes());
    format!("{header}.{payload}.c2ln")
}

#[test]
fn the_key_of_a_token_is_named_in_its_header() {
    assert_eq!(token_kid(&token_from(DEV_ISSUER, "forged")), Ok("forged".into()));
    assert_eq!(token_kid("not-a-jwt"), Err(Outcome::Malformed));
    let nameless = format!("{}.e30.c2ln", b64url(br#"{"alg":"RS256"}"#));
    assert_eq!(token_kid(&nameless), Err(Outcome::Malformed));
    assert_eq!(kid_or_malformed(None), Err(Outcome::Malformed));
}

#[test]
fn an_unknown_kid_flood_fetches_the_jwks_once() {
    let mut issuer = Issuer::new(dev_issuer());
    assert_eq!(issuer.plan("forged", 1000), KeyStep::FetchAndWait);
    for _ in 0..19 {
        assert_eq!(issuer.plan("forged", 1000), KeyStep::Wait);
    }
    issuer.fetched(Some(vec![]), 1050);
    assert_eq!(issuer.after_fetch("forged", true), Err(Outcome::UnknownKey));
    assert_eq!(issuer.plan("forged", 1060), KeyStep::Refuse);
}

#[test]
fn callers_during_a_rotation_wait_for_the_one_fetch() {
    let mut issuer = Issuer::new(dev_issuer());
    assert_eq!(issuer.plan("new", 0), KeyStep::FetchAndWait);
    for _ in 0..19 {
        assert_eq!(issuer.plan("new", 0), KeyStep::Wait);
    }
    issuer.fetched(Some(vec!["new".into()]), 50);
    for _ in 0..20 {
        assert_eq!(issuer.after_fetch("new", true), Ok(()));
    }
    assert_eq!(issuer.plan("new", 60), KeyStep::Validate);
}

#[test]
fn a_failed_fetch_is_not_retried_within_the_floor() {
    let mut issuer = Issuer::new(dev_issuer());
    assert_eq!(issuer.plan("forged", 0), KeyStep::FetchAndWait);
    issuer.fetched(None, 50);
    assert_eq!(
        issuer.after_fetch("forged", false),
        Err(Outcome::JwksUnavailable)
    );
    for _ in 0..4 {
        assert_eq!(issuer.plan("forged", 51), KeyStep::Refuse);
    }
    assert_eq!(issuer.plan("forged", MIN_REFRESH_MS + 50), KeyStep::FetchAndWait);
}

#[test]
fn expired_keys_are_refetched_and_removed_keys_dropped() {
    let mut issuer = Issuer::new(dev_issuer());
    assert_eq!(issuer.plan("old", 0), KeyStep::FetchAndWait);
    issuer.fetched(Some(vec!["old".into()]), 0);
    assert_eq!(issuer.plan("old", KEY_TTL_MS - 1), KeyStep::Validate);
    assert_eq!(issuer.plan("old", KEY_TTL_MS), KeyStep::ValidateAndFetch);
    issuer.fetched(Some(vec!["new".into()]), KEY_TTL_MS);
    // The issuer no longer publishes it, so it is no longer trusted.
    assert!(!issuer.knows("old"));
    assert!(issuer.knows("new"));
}

#[test]
fn a_failed_refresh_keeps_expired_keys() {
    let mut issuer = Issuer::new(dev_issuer());
    issuer.plan("old", 0);
    issuer.fetched(Some(vec!["old".into()]), 0);
    assert_eq!(issuer.plan("old", KEY_TTL_MS), KeyStep::ValidateAndFetch);
    issuer.fetched(None, KEY_TTL_MS);
    assert!(issuer.knows("old"));
}

#[test]
fn refusals_are_classified_for_the_metric() {
    let auth = Authenticator::new(vec![dev_issuer()]).unwrap();
    assert_eq!(auth.route(None), Err(Outcome::Malformed));
    assert_eq!(
        auth.route(Some("https://elsewhere.example")),
        Err(Outcome::UntrustedIssuer)
    );
    assert_eq!(auth.route(Some(DEV_ISSUER)), Ok(0));
    assert_eq!(Outcome::Accepted.label(), "accepted");
    assert_eq!(Outcome::Malformed.label(), "malformed");
    assert_eq!(Outcome::UntrustedIssuer.label(), "untrusted_issuer");
    assert_eq!(Outcome::UnknownKey.label(), "unknown_key");
    assert_eq!(Outcome::Invalid.label(), "invalid");
    assert_eq!(Outcome::JwksUnavailable.label(), "jwks_unavailable");
    // The token's own `iss` never becomes a label.
    assert_eq!(auth.label(None), "unknown");
    assert_eq!(auth.label(Some(0)), DEV_ISSUER);
}

#[test]
fn logged_errors_cannot_forge_lines_and_are_bounded() {
    let forged = "no signing key for kid x\nINFO accepted token for admin";
    let logged = loggable(forged);
    assert!(!logged.contains('\n'), "{logged}");
    assert!(logged.contains(r"x\nINFO"), "{logged}");

    let flood = format!("no signing key for kid {}", "k".repeat(10_000));
    assert!(loggable(&flood).chars().count() <= 257);
    assert_eq!(shorten("short"), "short");
}

#[test]
fn keys_come_from_where_the_issuer_says() {
    let mut cfg = dev_issuer();
    assert!(matches!(
        jwks_url(&cfg),
        KeySource::Described(url) if url == "https://issuer.example/.well-known/openid-configuration"
    ));
    assert_eq!(
        openid_configuration_url("https://issuer.example//"),
        "https://issuer.example/.well-known/openid-configuration"
    );
    cfg.jwks_url = Some("https://keys.example/jwks".into());
    assert!(matches!(jwks_url(&cfg), KeySource::Remote(url) if url == "https://keys.example/jwks"));
    cfg.jwks_url = Some("/tmp/jwks.json".into());
    assert!(matches!(jwks_url(&cfg), KeySource::File(path) if path == "/tmp/jwks.json"));
}
