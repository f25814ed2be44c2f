//! The diagnosis of everything between this machine and the cache, layer by
//! layer: all checks are made and told, so that the layer that is broken is
//! named and not the one where a push would fail.

use vstd::prelude::*;
use vstd::string::*;

use crate::client::config::Config;
use crate::client::discovery::Discovery;
use crate::client::push::{pad, padded, path_hash, show_status, status_text};
use crate::common::{has_hash, hash_of_store_path};
use crate::number::{decimal, show};
use crate::text::{
    join, joined, lines, lines_end_at_line_feeds, lines_of, lists, opt_text, same, starts_with,
    texts, to_chars, trim, trimmed,
};

verus! {

/// What a check came to.
#[derive(Debug, Clone, Copy, PartialEq, Eq, Structural)]
pub enum Status {
    /// The layer works.
    Pass,
    /// The layer is broken.
    Fail,
    /// Not checked, because an earlier layer is broken.
    Skip,
}

impl Status {
    /// The word for it.
    pub open spec fn text(self) -> Seq<char> {
        match self {
            Status::Pass => "pass"@,
            Status::Fail => "fail"@,
            Status::Skip => "skip"@,
        }
    }

    /// The word for it.
    pub fn as_str(self) -> (r: &'static str)
        ensures
            r@ == self.text(),
    {
        match self {
            Status::Pass => "pass",
            Status::Fail => "fail",
            Status::Skip => "skip",
        }
    }
}

/// The verdict on one layer.
#[derive(Debug)]
pub struct Check {
    /// The layer.
    pub name: &'static str,
    /// What the check came to.
    pub status: Status,
    /// What was looked at, or what is broken and how to mend it.
    pub detail: String,
}

/// The verdict holds this.
pub open spec fn says(c: Check, name: Seq<char>, status: Status, detail: Seq<char>) -> bool {
    c.name@ == name && c.status == status && c.detail@ == detail
}

impl Check {
    /// A check that passed.
    pub fn pass(name: &'static str, detail: String) -> (r: Self)
        ensures
            says(r, name@, Status::Pass, detail@),
    {
        Check { name, status: Status::Pass, detail }
    }

    /// A check that failed.
    pub fn fail(name: &'static str, detail: String) -> (r: Self)
        ensures
            says(r, name@, Status::Fail, detail@),
    {
        Check { name, status: Status::Fail, detail }
    }

    /// A check that was not made.
    pub fn skip(name: &'static str) -> (r: Self)
        ensures
            says(r, name@, Status::Skip, "skipped: an earlier layer failed"@),
    {
        Check {
            name,
            status: Status::Skip,
            detail: "skipped: an earlier layer failed".to_owned(),
        }
    }

    /// The verdict in one line.
    pub fn line(&self) -> (r: String)
        ensures
            r@ == padded(self.status.text(), 4) + " "@ + padded(self.name@, 9) + " "@
                + self.detail@,
    {
        pad(self.status.as_str(), 4).concat(" ").concat(pad(self.name, 9).as_str()).concat(
            " ",
        ).concat(self.detail.as_str())
    }
}

/// A text, or `unset`.
pub open spec fn or_unset(v: Option<Seq<char>>) -> Seq<char> {
    match v {
        Some(s) => s,
        None => "unset"@,
    }
}

fn shown(v: &Option<String>) -> (r: String)
    ensures
        r@ == or_unset(opt_text(*v)),
{
    match v {
        Some(s) => s.clone(),
        None => "unset".to_owned(),
    }
}

/// What is said of a setting that is not what the server tells.
pub open spec fn drift_text(what: Seq<char>, is: Seq<char>, told: Seq<char>) -> Seq<char> {
    what + " is "@ + is + ", server advertises "@ + told
}

/// `list` with what is said of a setting, where it is not what the server
/// tells.
pub open spec fn drift_of(
    list: Seq<Seq<char>>,
    what: Seq<char>,
    is: Option<Seq<char>>,
    told: Option<Seq<char>>,
) -> Seq<Seq<char>> {
    match told {
        None => list,
        Some(t) => if is == Some(t) {
            list
        } else {
            list.push(drift_text(what, or_unset(is), t))
        },
    }
}

/// What the configuration and the server disagree on. What the server does not
/// tell is nothing to disagree on, and the keys are a check of their own.
pub open spec fn drifted(cfg: Config, d: Discovery) -> Seq<Seq<char>> {
    let first = drift_of(
        Seq::empty(),
        "puller_endpoint"@,
        opt_text(cfg.puller_endpoint),
        opt_text(d.puller_endpoint),
    );
    match d.oidc {
        None => first,
        Some(oidc) => {
            let second = drift_of(
                first,
                "oidc.issuer"@,
                Some(cfg.oidc.issuer@),
                Some(oidc.issuer@),
            );
            let third = drift_of(
                second,
                "oidc.audience"@,
                Some(cfg.oidc.audience@),
                Some(oidc.audience@),
            );
            drift_of(third, "oidc.client_id"@, opt_text(cfg.oidc.client_id), opt_text(oidc.client_id))
        },
    }
}

fn note(out: &mut Vec<String>, what: &str, is: &Option<String>, told: &Option<String>)
    ensures
        texts(final(out)@) == drift_of(texts(old(out)@), what@, opt_text(*is), opt_text(*told)),
{
    match told {
        None => {},
        Some(t) => {
            let agrees = match is {
                Some(s) => same(s.as_str(), t.as_str()),
                None => false,
            };
            if !agrees {
                let ghost before = out@;
                let line = what.to_owned().concat(" is ").concat(shown(is).as_str()).concat(
                    ", server advertises ",
                ).concat(t.as_str());
                out.push(line);
                assert(texts(out@) =~= texts(before).push(line@));
            }
        },
    }
}

/// What the configuration and the server disagree on.
pub fn drift(cfg: &Config, d: &Discovery) -> (r: Vec<String>)
    ensures
        texts(r@) == drifted(*cfg, *d),
{
    let mut out: Vec<String> = Vec::new();
    assert(texts(out@) =~= Seq::<Seq<char>>::empty());
    note(&mut out, "puller_endpoint", &cfg.puller_endpoint, &d.puller_endpoint);
    match &d.oidc {
        None => {},
        Some(oidc) => {
            note(
                &mut out,
                "oidc.issuer",
                &Some(cfg.oidc.issuer.clone()),
                &Some(oidc.issuer.clone()),
            );
            note(
                &mut out,
                "oidc.audience",
                &Some(cfg.oidc.audience.clone()),
                &Some(oidc.audience.clone()),
            );
            note(&mut out, "oidc.client_id", &cfg.oidc.client_id, &oidc.client_id);
        },
    }
    out
}

/// Those of `a` that are not among `b`, in order.
pub open spec fn not_among(a: Seq<Seq<char>>, b: Seq<Seq<char>>) -> Seq<Seq<char>> {
    a.filter(|k: Seq<char>| !b.contains(k))
}

fn left_over(a: &Vec<String>, b: &Vec<String>) -> (r: Vec<String>)
    ensures
        texts(r@) == not_among(texts(a@), texts(b@)),
{
    let ghost keep = |k: Seq<char>| !texts(b@).contains(k);
    let ghost all = texts(a@);
    let mut out: Vec<String> = Vec::new();
    let mut i: usize = 0;
    proof {
        reveal(Seq::filter);
        assert(texts(out@) =~= all.take(0).filter(keep));
    }
    while i < a.len()
        invariant
            i <= a@.len(),
            all == texts(a@),
            keep == (|k: Seq<char>| !texts(b@).contains(k)),
            texts(out@) == all.take(i as int).filter(keep),
        decreases a@.len() - i,
    {
        let ghost prior = out@;
        proof {
            reveal(Seq::filter);
            assert(all.take(i as int + 1).drop_last() =~= all.take(i as int));
        }
        if !lists(b, a[i].as_str()) {
            out.push(a[i].clone());
            assert(texts(out@) =~= texts(prior).push(a@[i as int]@));
        }
        i += 1;
    }
    assert(all.take(i as int) =~= all);
    out
}

/// The verdict on the keys: every key that the configuration trusts must be
/// one that the server signs with. That the server has more is a replacement in
/// progress.
pub open spec fn keys_say(configured: Seq<Seq<char>>, told: Seq<Seq<char>>) -> (Status, Seq<char>) {
    let stale = not_among(configured, told);
    let newer = not_among(told, configured).len();
    if configured.len() == 0 {
        (
            Status::Fail,
            "no `public_keys` in the config \u{2014} nix would reject every path as unsigned; re-run `garret login --force`"@,
        )
    } else if stale.len() > 0 {
        (
            Status::Fail,
            "configured key(s) the server no longer advertises: "@ + joined(stale, ", "@)
                + " \u{2014} re-run `garret login --force`"@,
        )
    } else if newer == 0 {
        (
            Status::Pass,
            decimal(configured.len()) + " configured public key(s), all advertised by the server"@,
        )
    } else {
        (
            Status::Pass,
            "configured keys match; the server also advertises "@ + decimal(newer)
                + " newer key(s) \u{2014} re-run `garret login --force` to trust them"@,
        )
    }
}

/// The verdict on the keys.
pub fn keys_verdict(configured: &Vec<String>, advertised: &Vec<String>) -> (r: (Status, String))
    ensures
        (r.0, r.1@) == keys_say(texts(configured@), texts(advertised@)),
{
    if configured.len() == 0 {
        return (
            Status::Fail,
            "no `public_keys` in the config \u{2014} nix would reject every path as unsigned; re-run `garret login --force`".to_owned(),
        );
    }
    let stale = left_over(configured, advertised);
    let newer = left_over(advertised, configured);
    assert(texts(stale@).len() == stale@.len() && texts(newer@).len() == newer@.len());
    if stale.len() > 0 {
        return (
            Status::Fail,
            "configured key(s) the server no longer advertises: ".to_owned().concat(
                join(&stale, ", ").as_str(),
            ).concat(" \u{2014} re-run `garret login --force`"),
        );
    }
    if newer.len() == 0 {
        (
            Status::Pass,
            show(configured.len() as u64).concat(
                " configured public key(s), all advertised by the server",
            ),
        )
    } else {
        (
            Status::Pass,
            "configured keys match; the server also advertises ".to_owned().concat(
                show(newer.len() as u64).as_str(),
            ).concat(" newer key(s) \u{2014} re-run `garret login --force` to trust them"),
        )
    }
}

/// A line of `text` begins with `StoreDir:`.
pub open spec fn is_cache_info(text: Seq<char>) -> bool {
    exists|i: int|
        0 <= i < lines_of(text).len() && "StoreDir:"@.is_prefix_of(#[trigger] lines_of(text)[i])
}

/// Whether an answer describes a cache: anything else comes from something
/// that answers in place of one.
pub fn cache_info_ok(body: &str) -> (r: bool)
    ensures
        r == is_cache_info(body@),
{
    let all = lines(body);
    let mut i: usize = 0;
    while i < all.len()
        invariant
            i <= all@.len(),
            texts(all@) == lines_of(body@),
            forall|k: int| 0 <= k < i ==> !"StoreDir:"@.is_prefix_of(#[trigger] lines_of(body@)[k]),
        decreases all@.len() - i,
    {
        assert(lines_of(body@)[i as int] == all@[i as int]@);
        if starts_with(all[i].as_str(), "StoreDir:") {
            return true;
        }
        i += 1;
    }
    false
}

/// 32 letters and digits.
pub open spec fn looks_like_hash(s: Seq<char>) -> bool {
    s.len() == 32 && forall|i: int|
        0 <= i < s.len() ==> crate::client::discovery::alphanumeric(#[trigger] s[i])
}

/// The hash in a store path, or in a bare hash, or why there is none.
pub fn probe_hash(path: &str) -> (r: Result<&str, String>)
    requires
        has_hash(path@),
    ensures
        match r {
            Ok(hash) => hash@ == path_hash(path@) && looks_like_hash(hash@),
            Err(m) => !looks_like_hash(path_hash(path@)) && m@ == "`"@ + path@
                + "` does not look like a store path or 32-character hash"@,
        },
{
    let hash = hash_of_store_path(path);
    let chars = to_chars(hash);
    let n: usize = chars.len();
    let mut fine = n == 32;
    let mut i: usize = 0;
    while i < n && fine
        invariant
            i <= n,
            n == chars@.len(),
            chars@ == hash@,
            fine ==> n == 32 && forall|k: int|
                0 <= k < i ==> crate::client::discovery::alphanumeric(#[trigger] hash@[k]),
            !fine ==> !looks_like_hash(hash@),
        decreases n - i,
    {
        let c = chars[i];
        if !(('a' <= c && c <= 'z') || ('A' <= c && c <= 'Z') || ('0' <= c && c <= '9')) {
            assert(!crate::client::discovery::alphanumeric(hash@[i as int]));
            fine = false;
        }
        i += 1;
    }
    if fine {
        Ok(hash)
    } else {
        Err(
            "`".to_owned().concat(path).concat(
                "` does not look like a store path or 32-character hash",
            ),
        )
    }
}

/// The first three verdicts: whether the server answered, whether the
/// configuration agrees with it, and the keys.
pub fn discovery_checks(cfg: &Config, fetched: &Result<Discovery, String>) -> (r: Vec<Check>)
    ensures
        r@.len() == 3,
        match fetched {
            Ok(d) => {
                let drift = drifted(*cfg, *d);
                let keys = keys_say(texts(cfg.public_keys@), texts(d.public_keys@));
                &&& says(
                    r@[0],
                    "discovery"@,
                    Status::Pass,
                    "the Pusher at "@ + cfg.endpoint@ + " answered"@,
                )
                &&& if drift.len() == 0 {
                    says(
                        r@[1],
                        "config"@,
                        Status::Pass,
                        "config matches the server's discovery document"@,
                    )
                } else {
                    says(
                        r@[1],
                        "config"@,
                        Status::Fail,
                        "config drift \u{2014} re-run `garret login --force`: "@ + joined(
                            drift,
                            "; "@,
                        ),
                    )
                }
                &&& says(r@[2], "keys"@, keys.0, keys.1)
            },
            Err(e) => {
                &&& says(r@[0], "discovery"@, Status::Fail, e@)
                &&& says(r@[1], "config"@, Status::Skip, "skipped: an earlier layer failed"@)
                &&& says(r@[2], "keys"@, Status::Skip, "skipped: an earlier layer failed"@)
            },
        },
{
    let mut checks: Vec<Check> = Vec::new();
    match fetched {
        Ok(d) => {
            checks.push(
                Check::pass(
                    "discovery",
                    "the Pusher at ".to_owned().concat(cfg.endpoint.as_str()).concat(" answered"),
                ),
            );
            let drifted = drift(cfg, d);
            assert(texts(drifted@).len() == drifted@.len());
            if drifted.len() == 0 {
                checks.push(
                    Check::pass(
                        "config",
                        "config matches the server's discovery document".to_owned(),
                    ),
                );
            } else {
                checks.push(
                    Check::fail(
                        "config",
                        "config drift \u{2014} re-run `garret login --force`: ".to_owned().concat(
                            join(&drifted, "; ").as_str(),
                        ),
                    ),
                );
            }
            let (status, detail) = keys_verdict(&cfg.public_keys, &d.public_keys);
            checks.push(Check { name: "keys", status, detail });
        },
        Err(e) => {
            checks.push(Check::fail("discovery", e.clone()));
            checks.push(Check::skip("config"));
            checks.push(Check::skip("keys"));
        },
    }
    checks
}

/// What became of a request.
#[derive(Debug)]
pub enum Probe {
    /// It was answered.
    Answered {
        /// The status.
        status: u16,
        /// The body.
        body: String,
    },
    /// It was not, for this reason.
    Unanswered(String),
}

impl Probe {
    /// The status of an answer is one.
    pub open spec fn wf(self) -> bool {
        self matches Probe::Answered { status, .. } ==> 100 <= status <= 999
    }
}

/// The verdict on the token: not only that there is one, but that the server
/// takes it. `subject` is whom it belongs to.
pub fn auth_verdict(token: &Result<(), String>, probe: &Probe, subject: Option<&str>) -> (r: Check)
    requires
        probe.wf(),
    ensures
        match token {
            Err(e) => says(r, "auth"@, Status::Fail, "no token: "@ + e@),
            Ok(_) => match probe {
                Probe::Unanswered(e) => says(
                    r,
                    "auth"@,
                    Status::Fail,
                    "probing the Pusher: "@ + e@,
                ),
                Probe::Answered { status, body } => if 200 <= *status <= 299 {
                    says(
                        r,
                        "auth"@,
                        Status::Pass,
                        "the Pusher accepted the token (subject "@ + (match subject {
                            Some(s) => s@,
                            None => "unknown"@,
                        }) + ")"@,
                    )
                } else {
                    says(
                        r,
                        "auth"@,
                        Status::Fail,
                        "the Pusher rejected the token with "@ + status_text(*status) + ": "@
                            + trimmed(body@),
                    )
                },
            },
        },
{
    match token {
        Err(e) => Check::fail("auth", "no token: ".to_owned().concat(e.as_str())),
        Ok(_) => match probe {
            Probe::Unanswered(e) => Check::fail(
                "auth",
                "probing the Pusher: ".to_owned().concat(e.as_str()),
            ),
            Probe::Answered { status, body } => if 200 <= *status && *status <= 299 {
                let subject = match subject {
                    Some(s) => s,
                    None => "unknown",
                };
                Check::pass(
                    "auth",
                    "the Pusher accepted the token (subject ".to_owned().concat(subject).concat(
                        ")",
                    ),
                )
            } else {
                Check::fail(
                    "auth",
                    "the Pusher rejected the token with ".to_owned().concat(
                        show_status(*status).as_str(),
                    ).concat(": ").concat(trim(body.as_str())),
                )
            },
        },
    }
}

/// The hash that is asked for where no path is given: it is certainly not
/// there, so that a miss shows that narinfos are served.
pub fn absent_hash() -> (r: &'static str)
    ensures
        r@ == "00000000000000000000000000000000"@,
{
    "00000000000000000000000000000000"
}

/// The verdict on a configuration that does not say where the cache is served
/// from.
pub fn no_puller() -> (r: Check)
    ensures
        says(
            r,
            "pull"@,
            Status::Fail,
            "no `puller_endpoint` in the config \u{2014} re-run `garret login --force` to pick it up from the server"@,
        ),
{
    Check::fail(
        "pull",
        "no `puller_endpoint` in the config \u{2014} re-run `garret login --force` to pick it up from the server".to_owned(),
    )
}

/// Where a cache describes itself.
pub fn cache_info_url(puller: &str) -> (r: String)
    ensures
        r@ == puller@ + "/nix-cache-info"@,
{
    puller.to_owned().concat("/nix-cache-info")
}

/// Where a narinfo is.
pub fn narinfo_url(puller: &str, hash: &str) -> (r: String)
    ensures
        r@ == puller@ + "/"@ + hash@ + ".narinfo"@,
{
    puller.to_owned().concat("/").concat(hash).concat(".narinfo")
}

/// The verdict on what a cache tells of itself; `None` where it does and one
/// narinfo is to be asked for.
pub fn cache_info_verdict(url: &str, probe: &Probe) -> (r: Option<Check>)
    requires
        probe.wf(),
    ensures
        match probe {
            Probe::Unanswered(e) => r matches Some(c) && says(
                c,
                "pull"@,
                Status::Fail,
                "fetching "@ + url@ + ": "@ + e@,
            ),
            Probe::Answered { status, body } => if !(200 <= *status <= 299) {
                r matches Some(c) && says(
                    c,
                    "pull"@,
                    Status::Fail,
                    url@ + " answered "@ + status_text(*status),
                )
            } else if !is_cache_info(body@) {
                r matches Some(c) && says(
                    c,
                    "pull"@,
                    Status::Fail,
                    url@
                        + " did not return a nix-cache-info document \u{2014} is this really the Puller?"@,
                )
            } else {
                r is None
            },
        },
{
    match probe {
        Probe::Unanswered(e) => Some(
            Check::fail(
                "pull",
                "fetching ".to_owned().concat(url).concat(": ").concat(e.as_str()),
            ),
        ),
        Probe::Answered { status, body } => if *status < 200 || *status > 299 {
            Some(
                Check::fail(
                    "pull",
                    url.to_owned().concat(" answered ").concat(show_status(*status).as_str()),
                ),
            )
        } else if !cache_info_ok(body.as_str()) {
            Some(
                Check::fail(
                    "pull",
                    url.to_owned().concat(
                        " did not return a nix-cache-info document \u{2014} is this really the Puller?",
                    ),
                ),
            )
        } else {
            None
        },
    }
}

/// The verdict on a narinfo that was asked for. A hit and a miss both pass:
/// whether a path is there is another question.
pub fn narinfo_verdict(url: &str, hash: &str, probe: &Probe) -> (r: Check)
    requires
        probe.wf(),
    ensures
        match probe {
            Probe::Unanswered(e) => says(
                r,
                "pull"@,
                Status::Fail,
                "fetching "@ + url@ + ": "@ + e@,
            ),
            Probe::Answered { status, .. } => if *status == 200 || *status == 404 {
                says(
                    r,
                    "pull"@,
                    Status::Pass,
                    "the Puller serves nix-cache-info; "@ + hash@ + ".narinfo answered "@
                        + decimal(*status as nat),
                )
            } else {
                says(r, "pull"@, Status::Fail, url@ + " answered "@ + status_text(*status))
            },
        },
{
    match probe {
        Probe::Unanswered(e) => Check::fail(
            "pull",
            "fetching ".to_owned().concat(url).concat(": ").concat(e.as_str()),
        ),
        Probe::Answered { status, .. } => if *status == 200 || *status == 404 {
            Check::pass(
                "pull",
                "the Puller serves nix-cache-info; ".to_owned().concat(hash).concat(
                    ".narinfo answered ",
                ).concat(show(*status as u64).as_str()),
            )
        } else {
            Check::fail(
                "pull",
                url.to_owned().concat(" answered ").concat(show_status(*status).as_str()),
            )
        },
    }
}

/// Why a negotiation over one path gave no list; `None` where it did.
pub fn negotiation_verdict(probe: &Probe) -> (r: Option<Check>)
    requires
        probe.wf(),
    ensures
        match probe {
            Probe::Unanswered(e) => r matches Some(c) && says(
                c,
                "path"@,
                Status::Fail,
                "Negotiation failed: "@ + e@,
            ),
            Probe::Answered { status, body } => if 200 <= *status <= 299 {
                r is None
            } else {
                r matches Some(c) && says(
                    c,
                    "path"@,
                    Status::Fail,
                    "Negotiation rejected with "@ + status_text(*status) + ": "@ + trimmed(body@),
                )
            },
        },
{
    match probe {
        Probe::Unanswered(e) => Some(
            Check::fail("path", "Negotiation failed: ".to_owned().concat(e.as_str())),
        ),
        Probe::Answered { status, body } => if 200 <= *status && *status <= 299 {
            None
        } else {
            Some(
                Check::fail(
                    "path",
                    "Negotiation rejected with ".to_owned().concat(
                        show_status(*status).as_str(),
                    ).concat(": ").concat(trim(body.as_str())),
                ),
            )
        },
    }
}

/// The verdict on one path. That it is not there is a failure, so that a
/// script learns it from the exit code.
pub fn path_verdict(path: &str, hash: &str, missing: &Vec<String>) -> (r: Check)
    ensures
        if texts(missing@).contains(hash@) {
            says(
                r,
                "path"@,
                Status::Fail,
                "not cached \u{2014} Negotiation lists "@ + hash@ + " as missing; `garret push "@
                    + path@ + "` would upload it"@,
            )
        } else {
            says(
                r,
                "path"@,
                Status::Pass,
                "cached \u{2014} Negotiation does not list "@ + hash@ + " as missing"@,
            )
        },
{
    if lists(missing, hash) {
        Check::fail(
            "path",
            "not cached \u{2014} Negotiation lists ".to_owned().concat(hash).concat(
                " as missing; `garret push ",
            ).concat(path).concat("` would upload it"),
        )
    } else {
        Check::pass(
            "path",
            "cached \u{2014} Negotiation does not list ".to_owned().concat(hash).concat(
                " as missing",
            ),
        )
    }
}

/// All verdicts in the order of the layers. A path can be asked for only with
/// a token that the server took: `path` is that verdict, where a path was given
/// and could be asked for.
pub fn run(first: Vec<Check>, auth: Check, pull: Check, asked: bool, path: Option<Check>) -> (r:
    Vec<Check>)
    requires
        first@.len() == 3,
    ensures
        r@.len() == if asked {
            6int
        } else {
            5int
        },
        r@.take(3) == first@,
        r@[3] == auth,
        r@[4] == pull,
        asked ==> match path {
            Some(c) => r@[5] == c,
            None => says(r@[5], "path"@, Status::Skip, "skipped: an earlier layer failed"@),
        },
{
    let mut checks = first;
    checks.push(auth);
    checks.push(pull);
    if asked {
        match path {
            Some(c) => {
                checks.push(c);
            },
            None => {
                checks.push(Check::skip("path"));
            },
        }
    }
    assert(checks@.take(3) =~= first@);
    checks
}

/// How many of `checks` failed.
pub open spec fn count_failed(checks: Seq<Check>) -> nat
    decreases checks.len(),
{
    if checks.len() == 0 {
        0
    } else {
        count_failed(checks.drop_last()) + if checks.last().status == Status::Fail {
            1nat
        } else {
            0nat
        }
    }
}

/// How many checks failed.
pub fn failed(checks: &Vec<Check>) -> (r: usize)
    ensures
        r == count_failed(checks@),
        r <= checks@.len(),
{
    let mut n: usize = 0;
    let mut i: usize = 0;
    while i < checks.len()
        invariant
            i <= checks@.len(),
            n <= i,
            n == count_failed(checks@.take(i as int)),
        decreases checks@.len() - i,
    {
        assert(checks@.take(i as int + 1).drop_last() =~= checks@.take(i as int));
        if checks[i].status == Status::Fail {
            n += 1;
        }
        i += 1;
    }
    assert(checks@.take(i as int) =~= checks@);
    n
}

/// What is said at the end; `None` where no check failed.
pub fn failure_text(checks: &Vec<Check>) -> (r: Option<String>)
    ensures
        opt_text(r) == if count_failed(checks@) == 0 {
            None
        } else {
            Some(
                decimal(count_failed(checks@)) + " of "@ + decimal(checks@.len())
                    + " check(s) failed"@,
            )
        },
{
    let n: usize = failed(checks);
    if n == 0 {
        return None;
    }
    Some(
        show(n as u64).concat(" of ").concat(show(checks.len() as u64).as_str()).concat(
            " check(s) failed",
        ),
    )
}

/// Where the configuration and the server disagree is told, and nothing else is:
/// what the server does not tell of is nothing to disagree on.
pub proof fn disagreements_are_told(cfg: Config, d: Discovery)
    ensures
        drifted(cfg, d).len() == 0 <==> {
            &&& d.puller_endpoint is Some ==> cfg.puller_endpoint is Some && cfg.puller_endpoint->0@
                == d.puller_endpoint->0@
            &&& d.oidc is Some ==> {
                &&& cfg.oidc.issuer@ == d.oidc->0.issuer@
                &&& cfg.oidc.audience@ == d.oidc->0.audience@
                &&& d.oidc->0.client_id is Some ==> cfg.oidc.client_id is Some
                    && cfg.oidc.client_id->0@ == d.oidc->0.client_id->0@
            }
        },
        d.oidc is Some && cfg.oidc.issuer@ != d.oidc->0.issuer@ ==> drifted(cfg, d).contains(
            "oidc.issuer"@ + " is "@ + cfg.oidc.issuer@ + ", server advertises "@
                + d.oidc->0.issuer@,
        ),
        d.oidc is Some && cfg.oidc.audience@ != d.oidc->0.audience@ ==> drifted(cfg, d).contains(
            "oidc.audience"@ + " is "@ + cfg.oidc.audience@ + ", server advertises "@
                + d.oidc->0.audience@,
        ),
{
    if d.oidc is Some {
        let oidc = d.oidc->0;
        let first = drift_of(
            Seq::empty(),
            "puller_endpoint"@,
            opt_text(cfg.puller_endpoint),
            opt_text(d.puller_endpoint),
        );
        let second = drift_of(first, "oidc.issuer"@, Some(cfg.oidc.issuer@), Some(oidc.issuer@));
        let third = drift_of(
            second,
            "oidc.audience"@,
            Some(cfg.oidc.audience@),
            Some(oidc.audience@),
        );
        let all = drifted(cfg, d);
        if cfg.oidc.issuer@ != oidc.issuer@ {
            assert(second[first.len() as int] == all[first.len() as int]);
        }
        if cfg.oidc.audience@ != oidc.audience@ {
            assert(third[second.len() as int] == all[second.len() as int]);
        }
    }
}

/// The keys pass if, and only if, there are some and the server advertises each
/// of them; that it advertises more is no fault.
pub proof fn keys_pass_where_all_are_advertised(configured: Seq<Seq<char>>, told: Seq<Seq<char>>)
    ensures
        keys_say(configured, told).0 == Status::Pass <==> configured.len() > 0 && forall|i: int|
            0 <= i < configured.len() ==> told.contains(#[trigger] configured[i]),
        keys_say(configured, told).0 == Status::Pass || keys_say(configured, told).0 == Status::Fail,
{
    nothing_is_left_over(configured, told);
}

proof fn nothing_is_left_over(a: Seq<Seq<char>>, b: Seq<Seq<char>>)
    ensures
        not_among(a, b).len() == 0 <==> forall|i: int|
            0 <= i < a.len() ==> b.contains(#[trigger] a[i]),
    decreases a.len(),
{
    reveal(Seq::filter);
    if a.len() > 0 {
        let front = a.drop_last();
        nothing_is_left_over(front, b);
        if forall|i: int| 0 <= i < a.len() ==> b.contains(#[trigger] a[i]) {
            assert(b.contains(a[a.len() - 1]));
            assert forall|i: int| 0 <= i < front.len() implies b.contains(#[trigger] front[i]) by {
                assert(b.contains(a[i]));
            }
        }
        if not_among(a, b).len() == 0 {
            assert forall|i: int| 0 <= i < a.len() implies b.contains(#[trigger] a[i]) by {
                if i < front.len() {
                    assert(b.contains(front[i]));
                }
            }
        }
    }
}

/// The checks that failed are counted, and no others.
pub proof fn failures_are_counted(checks: Seq<Check>, check: Check)
    ensures
        count_failed(checks.push(check)) == count_failed(checks) + if check.status == Status::Fail {
            1int
        } else {
            0int
        },
        count_failed(Seq::empty()) == 0,
{
    assert(checks.push(check).drop_last() =~= checks);
}

/// A hash is 32 letters and digits of ASCII.
pub proof fn hashes_are_letters_and_digits(s: Seq<char>)
    ensures
        looks_like_hash(s) <==> s.len() == 32 && forall|i: int|
            0 <= i < s.len() ==> 'a' <= #[trigger] s[i] <= 'z' || 'A' <= s[i] <= 'Z' || '0' <= s[i]
                <= '9',
{
}

/// What begins with the line of a cache describes one, and so does what has that
/// line behind another; nothing describes none.
pub proof fn caches_are_known_by_a_line(line: Seq<char>, value: Seq<char>, rest: Seq<char>)
    requires
        !line.contains('\n'),
        line.len() > 0 ==> line.last() != '\r',
        !value.contains('\n'),
        value.len() > 0,
        value.last() != '\r',
    ensures
        is_cache_info("StoreDir:"@ + value + seq!['\n'] + rest),
        is_cache_info(rest) ==> is_cache_info(line + seq!['\n'] + rest),
        !is_cache_info(Seq::empty()),
{
    reveal_strlit("StoreDir:");
    let first = "StoreDir:"@ + value;
    assert(!first.contains('\n')) by {
        if first.contains('\n') {
            let k = first.index_of('\n');
            if k >= 9 {
                assert(value[k - 9] == '\n');
            }
        }
    }
    lines_end_at_line_feeds(first, rest);
    lines_end_at_line_feeds(line, rest);
    let a = first + seq!['\n'] + rest;
    assert(a =~= "StoreDir:"@ + value + seq!['\n'] + rest);
    assert("StoreDir:"@ =~= first.subrange(0, 9));
    assert(lines_of(a)[0] == first);
    if is_cache_info(rest) {
        let i = choose|i: int|
            0 <= i < lines_of(rest).len() && "StoreDir:"@.is_prefix_of(
                #[trigger] lines_of(rest)[i],
            );
        let b = line + seq!['\n'] + rest;
        assert(lines_of(b)[i + 1] == lines_of(rest)[i]);
    }
}

/// A verdict holds the name, the status and the detail that it was given.
pub proof fn verdicts_hold_what_they_were_given(
    c: Check,
    name: Seq<char>,
    status: Status,
    detail: Seq<char>,
)
    ensures
        says(c, name, status, detail) <==> c.name@ == name && c.status == status && c.detail@
            == detail,
{
}

} // verus!
