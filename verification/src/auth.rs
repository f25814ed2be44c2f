//! Validation of bearer tokens from several issuers. No tokens are issued
//! here; they are checked against the keys that each issuer publishes.

use vstd::prelude::*;
use vstd::string::*;

use crate::config::IssuerConfig;
use crate::encoding::{from_base64url, url_base64};
use crate::text::{
    before_suffix, cut_at, first_of_is, opt_str, opt_text, same, split_once, starts_with,
    strip_suffix,
};

verus! {

/// An error of the token library.
#[verifier::external_type_specification]
#[verifier::external_body]
pub struct ExJwtError(jsonwebtoken::errors::Error);

/// Milliseconds from the end of one attempt to fetch keys to the start of the
/// next, so that neither a flood of unknown keys nor an issuer that is down
/// turns into a stream of fetches.
pub const MIN_REFRESH_MS: u64 = 10000;

/// Milliseconds for which fetched keys count as fresh: a key that the issuer
/// has removed is not trusted for longer.
pub const KEY_TTL_MS: u64 = 3600000;

/// Seconds by which a clock may differ when a token's times are checked.
pub const LEEWAY_SECS: u64 = 60;

/// What the service reads of a verified token.
#[derive(Debug, Clone)]
pub struct Claims {
    /// The issuer.
    pub iss: String,
    /// Whom the token belongs to.
    pub sub: String,
    /// The groups of the subject.
    pub groups: Vec<String>,
    /// GitHub: whether the ref is protected, as text.
    pub ref_protected: Option<String>,
    /// GitHub: the immutable number of the owner.
    pub repository_owner_id: Option<String>,
    /// GitHub: the ref.
    pub git_ref: Option<String>,
    /// GitHub: the immutable number of the repository.
    pub repository_id: Option<String>,
    /// GitHub: the event.
    pub event_name: Option<String>,
    /// GitHub: the workflow file that the job runs.
    pub job_workflow_ref: Option<String>,
}

/// The authenticated caller as `<issuer>#<subject>`, recorded with what it
/// pushes.
#[derive(Debug, Clone)]
pub struct Subject(pub String);

/// Why a verified token may not push.
#[derive(Debug, Clone, Copy, PartialEq, Eq, Structural)]
pub enum Denied {
    /// It names no owner.
    NoOwner,
    /// It names another owner.
    Owner,
    /// Its ref fits no pattern, or it names none.
    Ref,
    /// It does not say whether the ref is protected.
    NoRefProtected,
    /// The ref is not protected as it must be.
    RefProtected,
    /// It names no repository.
    NoRepositoryId,
    /// Its repository is not listed.
    RepositoryId,
    /// It names no event.
    NoEventName,
    /// Its event is not listed.
    EventName,
    /// It names no workflow file.
    NoJobWorkflowRef,
    /// Its workflow file is not listed.
    JobWorkflowRef,
    /// The subject is in none of the groups.
    Group,
}

/// What a token comes to, as the metrics count it.
#[derive(Debug, Clone, Copy, PartialEq, Eq, Structural)]
pub enum Outcome {
    /// Let in.
    Accepted,
    /// It cannot be read.
    Malformed,
    /// It names an issuer that is not configured.
    UntrustedIssuer,
    /// Its issuer publishes no such key.
    UnknownKey,
    /// The issuer's keys could not be fetched.
    JwksUnavailable,
    /// Its signature, times, issuer or audience do not hold.
    Invalid,
    /// It is valid but may not push.
    Unauthorized,
}

impl Outcome {
    /// The label of the metric.
    pub open spec fn text(self) -> Seq<char> {
        match self {
            Outcome::Accepted => "accepted"@,
            Outcome::Malformed => "malformed"@,
            Outcome::UntrustedIssuer => "untrusted_issuer"@,
            Outcome::UnknownKey => "unknown_key"@,
            Outcome::JwksUnavailable => "jwks_unavailable"@,
            Outcome::Invalid => "invalid"@,
            Outcome::Unauthorized => "unauthorized"@,
        }
    }

    /// The label of the metric.
    pub fn label(self) -> (r: &'static str)
        ensures
            r@ == self.text(),
    {
        match self {
            Outcome::Accepted => "accepted",
            Outcome::Malformed => "malformed",
            Outcome::UntrustedIssuer => "untrusted_issuer",
            Outcome::UnknownKey => "unknown_key",
            Outcome::JwksUnavailable => "jwks_unavailable",
            Outcome::Invalid => "invalid",
            Outcome::Unauthorized => "unauthorized",
        }
    }
}

/// `value` fits `pattern`: it is the same, or begins with what stands in front
/// of a `*` at the pattern's end.
pub open spec fn ref_fits(pattern: Seq<char>, value: Seq<char>) -> bool {
    match before_suffix(pattern, "*"@) {
        Some(prefix) => prefix.is_prefix_of(value),
        None => pattern == value,
    }
}

/// Whether a ref fits a pattern. A `*` counts at the end only.
pub fn ref_matches(pattern: &str, git_ref: &str) -> (r: bool)
    ensures
        r == ref_fits(pattern@, git_ref@),
{
    match strip_suffix(pattern, "*") {
        Some(prefix) => starts_with(git_ref, prefix),
        None => same(pattern, git_ref),
    }
}

/// How the entries of a list are held against a claim.
#[derive(Debug, Clone, Copy, PartialEq, Eq, Structural)]
pub enum Matching {
    /// The claim is an entry.
    Exact,
    /// The claim fits an entry as a ref does a pattern.
    Pattern,
}

/// `value` fits `entry`.
pub open spec fn entry_fits(how: Matching, entry: Seq<char>, value: Seq<char>) -> bool {
    match how {
        Matching::Exact => entry == value,
        Matching::Pattern => ref_fits(entry, value),
    }
}

/// `value` fits one of `entries`.
pub open spec fn some_entry_fits(how: Matching, entries: Seq<String>, value: Seq<char>) -> bool {
    exists|i: int| 0 <= i < entries.len() && entry_fits(how, (#[trigger] entries[i])@, value)
}

/// What a list says of a claim.
#[derive(Debug, Clone, Copy, PartialEq, Eq, Structural)]
pub enum Listing {
    /// The list is empty, or the claim fits it.
    Allowed,
    /// The token lacks the claim.
    Absent,
    /// The claim does not fit.
    Refused,
}

/// What the list `allowed` says of a claim: an empty one is off, and one that
/// is not refuses a token without the claim.
pub open spec fn listing_of(how: Matching, allowed: Seq<String>, claim: Option<Seq<char>>) -> Listing {
    if allowed.len() == 0 {
        Listing::Allowed
    } else {
        match claim {
            None => Listing::Absent,
            Some(value) => if some_entry_fits(how, allowed, value) {
                Listing::Allowed
            } else {
                Listing::Refused
            },
        }
    }
}

fn any_fits(how: Matching, entries: &Vec<String>, value: &str) -> (r: bool)
    ensures
        r == some_entry_fits(how, entries@, value@),
{
    let mut i: usize = 0;
    while i < entries.len()
        invariant
            i <= entries@.len(),
            forall|k: int| 0 <= k < i ==> !entry_fits(how, (#[trigger] entries@[k])@, value@),
        decreases entries@.len() - i,
    {
        let entry = entries[i].as_str();
        let fits = match how {
            Matching::Exact => same(entry, value),
            Matching::Pattern => ref_matches(entry, value),
        };
        if fits {
            assert(entry_fits(how, entries@[i as int]@, value@));
            return true;
        }
        i += 1;
    }
    false
}

/// What a list says of a claim.
pub fn allowlisted(allowed: &Vec<String>, claim: Option<&str>, how: Matching) -> (r: Listing)
    ensures
        r == listing_of(how, allowed@, opt_str(claim)),
{
    if allowed.len() == 0 {
        return Listing::Allowed;
    }
    match claim {
        None => Listing::Absent,
        Some(value) => if any_fits(how, allowed, value) {
            Listing::Allowed
        } else {
            Listing::Refused
        },
    }
}

/// The subject is in one of the allowed groups.
pub open spec fn in_some_group(groups: Seq<String>, allowed: Seq<String>) -> bool {
    exists|i: int|
        0 <= i < groups.len() && some_entry_fits(
            Matching::Exact,
            allowed,
            (#[trigger] groups[i])@,
        )
}

fn any_group(groups: &Vec<String>, allowed: &Vec<String>) -> (r: bool)
    ensures
        r == in_some_group(groups@, allowed@),
{
    let mut i: usize = 0;
    while i < groups.len()
        invariant
            i <= groups@.len(),
            forall|k: int|
                0 <= k < i ==> !some_entry_fits(
                    Matching::Exact,
                    allowed@,
                    (#[trigger] groups@[k])@,
                ),
        decreases groups@.len() - i,
    {
        if any_fits(Matching::Exact, allowed, groups[i].as_str()) {
            assert(some_entry_fits(Matching::Exact, allowed@, groups@[i as int]@));
            return true;
        }
        i += 1;
    }
    false
}

/// The text of a claim that says whether a ref is protected.
pub open spec fn truth_text(b: bool) -> Seq<char> {
    if b {
        "true"@
    } else {
        "false"@
    }
}

/// Why the owner or the ref of a token refuses it.
pub open spec fn owner_denial(cfg: IssuerConfig, claims: Claims) -> Option<Denied> {
    match opt_text(cfg.github_owner_id) {
        None => None,
        Some(expected) => match opt_text(claims.repository_owner_id) {
            None => Some(Denied::NoOwner),
            Some(owner) => if owner != expected {
                Some(Denied::Owner)
            } else if listing_of(
                Matching::Pattern,
                cfg.ref_patterns@,
                opt_text(claims.git_ref),
            ) != Listing::Allowed {
                Some(Denied::Ref)
            } else {
                None
            },
        },
    }
}

/// Why the protection of its ref refuses a token.
pub open spec fn protection_denial(cfg: IssuerConfig, claims: Claims) -> Option<Denied> {
    match cfg.ref_protected {
        None => None,
        Some(expected) => match opt_text(claims.ref_protected) {
            None => Some(Denied::NoRefProtected),
            Some(actual) => if actual != truth_text(expected) {
                Some(Denied::RefProtected)
            } else {
                None
            },
        },
    }
}

/// Why a list refuses a token.
pub open spec fn list_denial(listing: Listing, absent: Denied, refused: Denied) -> Option<Denied> {
    match listing {
        Listing::Allowed => None,
        Listing::Absent => Some(absent),
        Listing::Refused => Some(refused),
    }
}

/// `a`, or else `b`.
pub open spec fn or_else(a: Option<Denied>, b: Option<Denied>) -> Option<Denied> {
    match a {
        Some(d) => Some(d),
        None => b,
    }
}

/// Why a verified token may not push; `None` where it may. Constraints that
/// are not set are off; one that is set refuses a token without its claim.
pub open spec fn denial(cfg: IssuerConfig, claims: Claims) -> Option<Denied> {
    let repository = list_denial(
        listing_of(Matching::Exact, cfg.repository_ids@, opt_text(claims.repository_id)),
        Denied::NoRepositoryId,
        Denied::RepositoryId,
    );
    let event = list_denial(
        listing_of(Matching::Exact, cfg.event_names@, opt_text(claims.event_name)),
        Denied::NoEventName,
        Denied::EventName,
    );
    let workflow = list_denial(
        listing_of(Matching::Pattern, cfg.job_workflow_refs@, opt_text(claims.job_workflow_ref)),
        Denied::NoJobWorkflowRef,
        Denied::JobWorkflowRef,
    );
    let group = if cfg.allowed_groups@.len() > 0 && !in_some_group(
        claims.groups@,
        cfg.allowed_groups@,
    ) {
        Some(Denied::Group)
    } else {
        None
    };
    or_else(
        owner_denial(cfg, claims),
        or_else(
            protection_denial(cfg, claims),
            or_else(repository, or_else(event, or_else(workflow, group))),
        ),
    )
}

/// The slice of an optional string.
pub fn as_slice(v: &Option<String>) -> (r: Option<&str>)
    ensures
        opt_str(r) == opt_text(*v),
{
    match v {
        Some(s) => Some(s.as_str()),
        None => None,
    }
}

/// Whether a verified token may push. Access is granted at the issuer wherever
/// possible: one for people grants by audience alone unless groups are set,
/// GitHub by the owner and the constraints that are set.
pub fn authorize(cfg: &IssuerConfig, claims: &Claims) -> (r: Result<(), Denied>)
    ensures
        match r {
            Ok(_) => denial(*cfg, *claims) is None,
            Err(d) => denial(*cfg, *claims) == Some(d),
        },
{
    match &cfg.github_owner_id {
        None => {},
        Some(expected) => {
            match &claims.repository_owner_id {
                None => {
                    return Err(Denied::NoOwner);
                },
                Some(owner) => {
                    if !same(owner.as_str(), expected.as_str()) {
                        return Err(Denied::Owner);
                    }
                },
            }
            match allowlisted(&cfg.ref_patterns, as_slice(&claims.git_ref), Matching::Pattern) {
                Listing::Allowed => {},
                _ => {
                    return Err(Denied::Ref);
                },
            }
        },
    }
    match cfg.ref_protected {
        None => {},
        Some(expected) => {
            match &claims.ref_protected {
                None => {
                    return Err(Denied::NoRefProtected);
                },
                Some(actual) => {
                    let wanted = if expected {
                        "true"
                    } else {
                        "false"
                    };
                    if !same(actual.as_str(), wanted) {
                        return Err(Denied::RefProtected);
                    }
                },
            }
        },
    }
    match allowlisted(&cfg.repository_ids, as_slice(&claims.repository_id), Matching::Exact) {
        Listing::Allowed => {},
        Listing::Absent => {
            return Err(Denied::NoRepositoryId);
        },
        Listing::Refused => {
            return Err(Denied::RepositoryId);
        },
    }
    match allowlisted(&cfg.event_names, as_slice(&claims.event_name), Matching::Exact) {
        Listing::Allowed => {},
        Listing::Absent => {
            return Err(Denied::NoEventName);
        },
        Listing::Refused => {
            return Err(Denied::EventName);
        },
    }
    match allowlisted(
        &cfg.job_workflow_refs,
        as_slice(&claims.job_workflow_ref),
        Matching::Pattern,
    ) {
        Listing::Allowed => {},
        Listing::Absent => {
            return Err(Denied::NoJobWorkflowRef);
        },
        Listing::Refused => {
            return Err(Denied::JobWorkflowRef);
        },
    }
    if cfg.allowed_groups.len() > 0 && !any_group(&claims.groups, &cfg.allowed_groups) {
        return Err(Denied::Group);
    }
    Ok(())
}

/// Every constraint that is set refuses a token without its claim.
pub proof fn constraints_fail_closed(cfg: IssuerConfig, claims: Claims)
    requires
        denial(cfg, claims) is None,
    ensures
        cfg.github_owner_id is Some ==> claims.repository_owner_id is Some,
        cfg.github_owner_id is Some && cfg.ref_patterns@.len() > 0 ==> claims.git_ref is Some,
        cfg.ref_protected is Some ==> claims.ref_protected is Some,
        cfg.repository_ids@.len() > 0 ==> claims.repository_id is Some,
        cfg.event_names@.len() > 0 ==> claims.event_name is Some,
        cfg.job_workflow_refs@.len() > 0 ==> claims.job_workflow_ref is Some,
        cfg.allowed_groups@.len() > 0 ==> claims.groups@.len() > 0,
{
}

/// Setting one more constraint lets in no token that was refused without it.
pub proof fn constraints_only_narrow(cfg: IssuerConfig, looser: IssuerConfig, claims: Claims)
    requires
        denial(cfg, claims) is None,
        looser.github_owner_id == cfg.github_owner_id || looser.github_owner_id is None,
        looser.ref_patterns == cfg.ref_patterns || looser.ref_patterns@.len() == 0,
        looser.ref_protected == cfg.ref_protected || looser.ref_protected is None,
        looser.repository_ids == cfg.repository_ids || looser.repository_ids@.len() == 0,
        looser.event_names == cfg.event_names || looser.event_names@.len() == 0,
        looser.job_workflow_refs == cfg.job_workflow_refs || looser.job_workflow_refs@.len() == 0,
        looser.allowed_groups == cfg.allowed_groups || looser.allowed_groups@.len() == 0,
    ensures
        denial(looser, claims) is None,
{
}

/// The ref or workflow file is the pattern, or the pattern ends in a star and
/// it begins with what stands before that.
pub open spec fn is_or_begins(pattern: Seq<char>, value: Seq<char>) -> bool {
    if pattern.len() > 0 && pattern[pattern.len() - 1] == '*' {
        &&& value.len() >= pattern.len() - 1
        &&& forall|i: int| 0 <= i < pattern.len() - 1 ==> value[i] == #[trigger] pattern[i]
    } else {
        value == pattern
    }
}

/// A pattern is held against a value as it has to be.
pub proof fn patterns_match_by_prefix(pattern: Seq<char>, value: Seq<char>)
    ensures
        ref_fits(pattern, value) <==> is_or_begins(pattern, value),
{
    reveal_strlit("*");
    let n = pattern.len() as int;
    if n > 0 && pattern[n - 1] == '*' {
        assert(pattern.subrange(n - 1, n) =~= "*"@);
        let prefix = pattern.take(n - 1);
        assert(before_suffix(pattern, "*"@) == Some(prefix));
        if prefix.is_prefix_of(value) {
            assert forall|i: int| 0 <= i < n - 1 implies value[i] == #[trigger] pattern[i] by {
                assert(prefix[i] == value.subrange(0, n - 1)[i]);
            }
        }
        if is_or_begins(pattern, value) {
            assert(value.subrange(0, n - 1) =~= prefix);
        }
    } else if "*"@.is_suffix_of(pattern) {
        assert(pattern.subrange(n - 1, n)[0] == "*"@[0]);
    }
}

/// A token that fits every constraint which is set is let in: the owner and one
/// of the refs, the protection, one of the repositories, one of the events, one
/// of the workflow files, and any one of its groups that is any of those
/// allowed.
pub proof fn tokens_that_fit_are_let_in(
    cfg: IssuerConfig,
    claims: Claims,
    r: int,
    p: int,
    e: int,
    w: int,
    i: int,
    j: int,
)
    requires
        cfg.github_owner_id is Some ==> claims.repository_owner_id is Some
            && claims.repository_owner_id->0@ == cfg.github_owner_id->0@,
        cfg.github_owner_id is Some && cfg.ref_patterns@.len() > 0 ==> claims.git_ref is Some && 0
            <= r < cfg.ref_patterns@.len() && is_or_begins(
            cfg.ref_patterns@[r]@,
            claims.git_ref->0@,
        ),
        cfg.ref_protected == Some(true) ==> claims.ref_protected is Some
            && claims.ref_protected->0@ == "true"@,
        cfg.ref_protected == Some(false) ==> claims.ref_protected is Some
            && claims.ref_protected->0@ == "false"@,
        cfg.repository_ids@.len() > 0 ==> claims.repository_id is Some && 0 <= p
            < cfg.repository_ids@.len() && claims.repository_id->0@ == cfg.repository_ids@[p]@,
        cfg.event_names@.len() > 0 ==> claims.event_name is Some && 0 <= e < cfg.event_names@.len()
            && claims.event_name->0@ == cfg.event_names@[e]@,
        cfg.job_workflow_refs@.len() > 0 ==> claims.job_workflow_ref is Some && 0 <= w
            < cfg.job_workflow_refs@.len() && is_or_begins(
            cfg.job_workflow_refs@[w]@,
            claims.job_workflow_ref->0@,
        ),
        cfg.allowed_groups@.len() > 0 ==> 0 <= i < claims.groups@.len() && 0 <= j
            < cfg.allowed_groups@.len() && claims.groups@[i]@ == cfg.allowed_groups@[j]@,
    ensures
        denial(cfg, claims) is None,
{
    if cfg.github_owner_id is Some && cfg.ref_patterns@.len() > 0 {
        patterns_match_by_prefix(cfg.ref_patterns@[r]@, claims.git_ref->0@);
        assert(entry_fits(Matching::Pattern, cfg.ref_patterns@[r]@, claims.git_ref->0@));
    }
    if cfg.repository_ids@.len() > 0 {
        assert(entry_fits(Matching::Exact, cfg.repository_ids@[p]@, claims.repository_id->0@));
    }
    if cfg.event_names@.len() > 0 {
        assert(entry_fits(Matching::Exact, cfg.event_names@[e]@, claims.event_name->0@));
    }
    if cfg.job_workflow_refs@.len() > 0 {
        patterns_match_by_prefix(cfg.job_workflow_refs@[w]@, claims.job_workflow_ref->0@);
        assert(entry_fits(
            Matching::Pattern,
            cfg.job_workflow_refs@[w]@,
            claims.job_workflow_ref->0@,
        ));
    }
    if cfg.allowed_groups@.len() > 0 {
        assert(entry_fits(Matching::Exact, cfg.allowed_groups@[j]@, claims.groups@[i]@));
        assert(some_entry_fits(Matching::Exact, cfg.allowed_groups@, claims.groups@[i]@));
    }
    if cfg.ref_protected is Some {
        assert(cfg.ref_protected == Some(true) || cfg.ref_protected == Some(false));
    }
    assert(owner_denial(cfg, claims) is None);
    assert(protection_denial(cfg, claims) is None);
}

/// A token that is let in fits every constraint which is set.
pub proof fn tokens_let_in_fit(cfg: IssuerConfig, claims: Claims)
    requires
        denial(cfg, claims) is None,
    ensures
        cfg.github_owner_id is Some ==> claims.repository_owner_id is Some
            && claims.repository_owner_id->0@ == cfg.github_owner_id->0@,
        cfg.github_owner_id is Some && cfg.ref_patterns@.len() > 0 ==> claims.git_ref is Some
            && exists|r: int|
            0 <= r < cfg.ref_patterns@.len() && is_or_begins(
                (#[trigger] cfg.ref_patterns@[r])@,
                claims.git_ref->0@,
            ),
        cfg.ref_protected == Some(true) ==> claims.ref_protected is Some
            && claims.ref_protected->0@ == "true"@,
        cfg.ref_protected == Some(false) ==> claims.ref_protected is Some
            && claims.ref_protected->0@ == "false"@,
        cfg.repository_ids@.len() > 0 ==> claims.repository_id is Some && exists|p: int|
            0 <= p < cfg.repository_ids@.len() && claims.repository_id->0@ == (
            #[trigger] cfg.repository_ids@[p])@,
        cfg.event_names@.len() > 0 ==> claims.event_name is Some && exists|e: int|
            0 <= e < cfg.event_names@.len() && claims.event_name->0@ == (
            #[trigger] cfg.event_names@[e])@,
        cfg.job_workflow_refs@.len() > 0 ==> claims.job_workflow_ref is Some && exists|w: int|
            0 <= w < cfg.job_workflow_refs@.len() && is_or_begins(
                (#[trigger] cfg.job_workflow_refs@[w])@,
                claims.job_workflow_ref->0@,
            ),
        cfg.allowed_groups@.len() > 0 ==> exists|i: int, j: int|
            0 <= i < claims.groups@.len() && 0 <= j < cfg.allowed_groups@.len() && (
            #[trigger] claims.groups@[i])@ == (#[trigger] cfg.allowed_groups@[j])@,
{
    if cfg.github_owner_id is Some && cfg.ref_patterns@.len() > 0 {
        let r = choose|r: int|
            0 <= r < cfg.ref_patterns@.len() && entry_fits(
                Matching::Pattern,
                (#[trigger] cfg.ref_patterns@[r])@,
                claims.git_ref->0@,
            );
        patterns_match_by_prefix(cfg.ref_patterns@[r]@, claims.git_ref->0@);
        assert(is_or_begins(cfg.ref_patterns@[r]@, claims.git_ref->0@));
    }
    if cfg.job_workflow_refs@.len() > 0 {
        let w = choose|w: int|
            0 <= w < cfg.job_workflow_refs@.len() && entry_fits(
                Matching::Pattern,
                (#[trigger] cfg.job_workflow_refs@[w])@,
                claims.job_workflow_ref->0@,
            );
        patterns_match_by_prefix(cfg.job_workflow_refs@[w]@, claims.job_workflow_ref->0@);
        assert(is_or_begins(cfg.job_workflow_refs@[w]@, claims.job_workflow_ref->0@));
    }
    if cfg.allowed_groups@.len() > 0 {
        let i = choose|i: int|
            0 <= i < claims.groups@.len() && some_entry_fits(
                Matching::Exact,
                cfg.allowed_groups@,
                (#[trigger] claims.groups@[i])@,
            );
        let j = choose|j: int|
            0 <= j < cfg.allowed_groups@.len() && entry_fits(
                Matching::Exact,
                (#[trigger] cfg.allowed_groups@[j])@,
                claims.groups@[i]@,
            );
        assert(claims.groups@[i]@ == cfg.allowed_groups@[j]@);
    }
}

/// What a refusal names is what does not hold, and what comes before it holds.
pub proof fn refusals_name_what_fails(cfg: IssuerConfig, claims: Claims)
    requires
        denial(cfg, claims) is Some,
    ensures
        match denial(cfg, claims)->0 {
            Denied::NoOwner => cfg.github_owner_id is Some && claims.repository_owner_id is None,
            Denied::Owner => cfg.github_owner_id is Some && claims.repository_owner_id is Some
                && claims.repository_owner_id->0@ != cfg.github_owner_id->0@,
            Denied::Ref => cfg.github_owner_id is Some && cfg.ref_patterns@.len() > 0 && (
            claims.git_ref is None || forall|r: int|
                0 <= r < cfg.ref_patterns@.len() ==> !is_or_begins(
                    (#[trigger] cfg.ref_patterns@[r])@,
                    claims.git_ref->0@,
                )),
            Denied::NoRefProtected => cfg.ref_protected is Some && claims.ref_protected is None,
            Denied::RefProtected => cfg.ref_protected is Some && claims.ref_protected is Some && (
            cfg.ref_protected->0 ==> claims.ref_protected->0@ != "true"@) && (
            !cfg.ref_protected->0 ==> claims.ref_protected->0@ != "false"@),
            Denied::NoRepositoryId => cfg.repository_ids@.len() > 0 && claims.repository_id is None,
            Denied::RepositoryId => claims.repository_id is Some && forall|p: int|
                0 <= p < cfg.repository_ids@.len() ==> claims.repository_id->0@ != (
                #[trigger] cfg.repository_ids@[p])@,
            Denied::NoEventName => cfg.event_names@.len() > 0 && claims.event_name is None,
            Denied::EventName => claims.event_name is Some && forall|e: int|
                0 <= e < cfg.event_names@.len() ==> claims.event_name->0@ != (
                #[trigger] cfg.event_names@[e])@,
            Denied::NoJobWorkflowRef => cfg.job_workflow_refs@.len() > 0
                && claims.job_workflow_ref is None,
            Denied::JobWorkflowRef => claims.job_workflow_ref is Some && forall|w: int|
                0 <= w < cfg.job_workflow_refs@.len() ==> !is_or_begins(
                    (#[trigger] cfg.job_workflow_refs@[w])@,
                    claims.job_workflow_ref->0@,
                ),
            Denied::Group => cfg.allowed_groups@.len() > 0 && forall|i: int, j: int|
                0 <= i < claims.groups@.len() && 0 <= j < cfg.allowed_groups@.len() ==> (
                #[trigger] claims.groups@[i])@ != (#[trigger] cfg.allowed_groups@[j])@,
        },
{
    if claims.git_ref is Some {
        assert forall|r: int|
            0 <= r < cfg.ref_patterns@.len() && !some_entry_fits(
                Matching::Pattern,
                cfg.ref_patterns@,
                claims.git_ref->0@,
            ) implies !is_or_begins((#[trigger] cfg.ref_patterns@[r])@, claims.git_ref->0@) by {
            patterns_match_by_prefix(cfg.ref_patterns@[r]@, claims.git_ref->0@);
            assert(!entry_fits(Matching::Pattern, cfg.ref_patterns@[r]@, claims.git_ref->0@));
        }
    }
    if claims.job_workflow_ref is Some {
        assert forall|w: int|
            0 <= w < cfg.job_workflow_refs@.len() && !some_entry_fits(
                Matching::Pattern,
                cfg.job_workflow_refs@,
                claims.job_workflow_ref->0@,
            ) implies !is_or_begins(
            (#[trigger] cfg.job_workflow_refs@[w])@,
            claims.job_workflow_ref->0@,
        ) by {
            patterns_match_by_prefix(cfg.job_workflow_refs@[w]@, claims.job_workflow_ref->0@);
            assert(!entry_fits(
                Matching::Pattern,
                cfg.job_workflow_refs@[w]@,
                claims.job_workflow_ref->0@,
            ));
        }
    }
    if claims.repository_id is Some {
        assert forall|p: int|
            0 <= p < cfg.repository_ids@.len() && !some_entry_fits(
                Matching::Exact,
                cfg.repository_ids@,
                claims.repository_id->0@,
            ) implies claims.repository_id->0@ != (#[trigger] cfg.repository_ids@[p])@ by {
            assert(!entry_fits(
                Matching::Exact,
                cfg.repository_ids@[p]@,
                claims.repository_id->0@,
            ));
        }
    }
    if claims.event_name is Some {
        assert forall|e: int|
            0 <= e < cfg.event_names@.len() && !some_entry_fits(
                Matching::Exact,
                cfg.event_names@,
                claims.event_name->0@,
            ) implies claims.event_name->0@ != (#[trigger] cfg.event_names@[e])@ by {
            assert(!entry_fits(Matching::Exact, cfg.event_names@[e]@, claims.event_name->0@));
        }
    }
    assert forall|i: int, j: int|
        0 <= i < claims.groups@.len() && 0 <= j < cfg.allowed_groups@.len() && !in_some_group(
            claims.groups@,
            cfg.allowed_groups@,
        ) implies (#[trigger] claims.groups@[i])@ != (#[trigger] cfg.allowed_groups@[j])@ by {
        assert(!some_entry_fits(Matching::Exact, cfg.allowed_groups@, claims.groups@[i]@));
        assert(!entry_fits(Matching::Exact, cfg.allowed_groups@[j]@, claims.groups@[i]@));
    }
}

/// It matters which groups a token has, not in which order or how often.
pub proof fn the_order_of_groups_does_not_matter(cfg: IssuerConfig, a: Claims, b: Claims)
    requires
        (Claims { groups: b.groups, ..a }) == b,
        forall|i: int|
            0 <= i < a.groups@.len() ==> exists|j: int|
                0 <= j < b.groups@.len() && (#[trigger] b.groups@[j])@ == (
                #[trigger] a.groups@[i])@,
        forall|j: int|
            0 <= j < b.groups@.len() ==> exists|i: int|
                0 <= i < a.groups@.len() && (#[trigger] a.groups@[i])@ == (
                #[trigger] b.groups@[j])@,
    ensures
        denial(cfg, a) == denial(cfg, b),
{
    let allowed = cfg.allowed_groups@;
    if in_some_group(a.groups@, allowed) {
        let i = choose|i: int|
            0 <= i < a.groups@.len() && some_entry_fits(
                Matching::Exact,
                allowed,
                (#[trigger] a.groups@[i])@,
            );
        let j = choose|j: int|
            0 <= j < b.groups@.len() && (#[trigger] b.groups@[j])@ == a.groups@[i]@;
        assert(some_entry_fits(Matching::Exact, allowed, b.groups@[j]@));
    }
    if in_some_group(b.groups@, allowed) {
        let j = choose|j: int|
            0 <= j < b.groups@.len() && some_entry_fits(
                Matching::Exact,
                allowed,
                (#[trigger] b.groups@[j])@,
            );
        let i = choose|i: int|
            0 <= i < a.groups@.len() && (#[trigger] a.groups@[i])@ == b.groups@[j]@;
        assert(some_entry_fits(Matching::Exact, allowed, a.groups@[i]@));
    }
}

/// What stands between the first and the second dot of a token.
pub open spec fn second_segment(token: Seq<char>) -> Option<Seq<char>> {
    match cut_at(token, '.') {
        None => None,
        Some((_, rest)) => match cut_at(rest, '.') {
            None => Some(rest),
            Some((segment, _)) => Some(segment),
        },
    }
}

/// Why the payload of a token cannot be read.
#[derive(Debug, Clone, Copy, PartialEq, Eq, Structural)]
pub enum TokenError {
    /// It has no second segment.
    NotAToken,
    /// That segment is not base64.
    NotBase64,
}

/// The payload of a token, nothing of it verified.
pub fn token_payload(token: &str) -> (r: Result<Vec<u8>, TokenError>)
    ensures
        match r {
            Ok(bytes) => second_segment(token@) == Some(url_base64(bytes@)),
            Err(TokenError::NotAToken) => second_segment(token@) is None,
            Err(TokenError::NotBase64) => second_segment(token@) is Some && forall|bytes: Seq<u8>|
                #[trigger] url_base64(bytes) != second_segment(token@)->0,
        },
{
    let segment = match split_once(token, '.') {
        None => {
            return Err(TokenError::NotAToken);
        },
        Some((_, rest)) => match split_once(rest, '.') {
            None => rest,
            Some((segment, _)) => segment,
        },
    };
    match from_base64url(segment) {
        Ok(bytes) => Ok(bytes),
        Err(_) => Err(TokenError::NotBase64),
    }
}

/// The key that the header of a token names: nothing where there is no header
/// to read, and nothing in that where it names none.
pub uninterp spec fn jwt_kid(token: Seq<char>) -> Option<Option<Seq<char>>>;

/// `jsonwebtoken::decode_header`: the key that the header names. The header is
/// not verified.
#[verifier::external_body]
fn header_kid(token: &str) -> (r: Result<Option<String>, jsonwebtoken::errors::Error>)
    ensures
        match r {
            Ok(kid) => jwt_kid(token@) == Some(opt_text(kid)),
            Err(_) => jwt_kid(token@) is None,
        },
{
    jsonwebtoken::decode_header(token).map(|h| h.kid)
}

/// The key that a token names. One that cannot be read, or names none, is
/// malformed.
pub fn token_kid(token: &str) -> (r: Result<String, Outcome>)
    ensures
        match r {
            Ok(kid) => jwt_kid(token@) == Some(Some(kid@)),
            Err(e) => e == Outcome::Malformed && (jwt_kid(token@) is None || jwt_kid(token@)
                == Some(None::<Seq<char>>)),
        },
{
    match header_kid(token) {
        Ok(kid) => kid_or_malformed(kid),
        Err(_) => Err(Outcome::Malformed),
    }
}

/// The key that a readable header names; a header that names none is malformed.
pub fn kid_or_malformed(kid: Option<String>) -> (r: Result<String, Outcome>)
    ensures
        match r {
            Ok(k) => opt_text(kid) == Some(k@),
            Err(e) => e == Outcome::Malformed && kid is None,
        },
{
    match kid {
        Some(kid) => Ok(kid),
        None => Err(Outcome::Malformed),
    }
}

/// What is known of one issuer's keys.
pub struct Issuer {
    /// How the issuer is configured.
    pub cfg: IssuerConfig,
    /// The names of the keys fetched last.
    pub kids: Vec<String>,
    /// When they stop being fresh; `None` before the first fetch.
    pub expires_at: Option<u64>,
    /// A fetch is going on.
    pub fetching: bool,
    /// When the next fetch may start; `None` before the first one ended.
    pub next_attempt: Option<u64>,
}

/// `kid` is among the keys.
pub open spec fn key_known(kids: Seq<String>, kid: Seq<char>) -> bool {
    exists|i: int| 0 <= i < kids.len() && (#[trigger] kids[i])@ == kid
}

/// What to do about the key of a token.
#[derive(Debug, Clone, Copy, PartialEq, Eq, Structural)]
pub enum KeyStep {
    /// Validate with the key that is there.
    Validate,
    /// Validate with the key that is there, and start to fetch the keys anew.
    ValidateAndFetch,
    /// Start to fetch the keys, and wait for them.
    FetchAndWait,
    /// Wait for the fetch that is going on.
    Wait,
    /// Refuse: the key is unknown, and it is too early to fetch again.
    Refuse,
}

impl Issuer {
    /// The keys are not fresh at `now`.
    pub open spec fn expired(self, now: u64) -> bool {
        match self.expires_at {
            None => true,
            Some(t) => now >= t,
        }
    }

    /// A fetch may start at `now`: none is going on, and the last one ended
    /// long enough ago.
    pub open spec fn may_fetch(self, now: u64) -> bool {
        &&& !self.fetching
        &&& match self.next_attempt {
            None => true,
            Some(t) => now >= t,
        }
    }

    /// An issuer of which no keys are known yet.
    pub fn new(cfg: IssuerConfig) -> (r: Self)
        ensures
            r.cfg == cfg,
            r.kids@.len() == 0,
            r.expires_at is None,
            !r.fetching,
            r.next_attempt is None,
    {
        Issuer { cfg, kids: Vec::new(), expires_at: None, fetching: false, next_attempt: None }
    }

    /// Whether a key of that name was fetched last.
    pub fn knows(&self, kid: &str) -> (r: bool)
        ensures
            r == key_known(self.kids@, kid@),
    {
        let mut i: usize = 0;
        while i < self.kids.len()
            invariant
                i <= self.kids@.len(),
                forall|k: int| 0 <= k < i ==> (#[trigger] self.kids@[k])@ != kid@,
            decreases self.kids@.len() - i,
        {
            if same(self.kids[i].as_str(), kid) {
                assert(self.kids@[i as int]@ == kid@);
                return true;
            }
            i += 1;
        }
        false
    }

    /// Takes the right to fetch, if one may start now.
    fn take_fetch(&mut self, now: u64) -> (r: bool)
        ensures
            r == old(self).may_fetch(now),
            *final(self) == (Issuer { fetching: old(self).fetching || r, ..*old(self) }),
    {
        if self.fetching {
            return false;
        }
        match self.next_attempt {
            Some(t) => if now < t {
                return false;
            },
            None => {},
        }
        self.fetching = true;
        true
    }

    /// What to do about a token with the key `kid`. A known key is used at
    /// once, also while newer ones are fetched: a slow issuer stalls nobody.
    /// An unknown one waits for the one fetch that all callers share.
    pub fn plan(&mut self, kid: &str, now: u64) -> (r: KeyStep)
        ensures
            r == (if key_known(old(self).kids@, kid@) {
                if old(self).expired(now) && old(self).may_fetch(now) {
                    KeyStep::ValidateAndFetch
                } else {
                    KeyStep::Validate
                }
            } else if old(self).fetching {
                KeyStep::Wait
            } else if old(self).may_fetch(now) {
                KeyStep::FetchAndWait
            } else {
                KeyStep::Refuse
            }),
            *final(self) == (Issuer {
                fetching: old(self).fetching || r == KeyStep::ValidateAndFetch || r
                    == KeyStep::FetchAndWait,
                ..*old(self)
            }),
    {
        if self.knows(kid) {
            let stale = match self.expires_at {
                None => true,
                Some(t) => now >= t,
            };
            if stale && self.take_fetch(now) {
                KeyStep::ValidateAndFetch
            } else {
                KeyStep::Validate
            }
        } else if self.fetching {
            KeyStep::Wait
        } else if self.take_fetch(now) {
            KeyStep::FetchAndWait
        } else {
            KeyStep::Refuse
        }
    }

    /// Records how a fetch ended: new keys replace the old ones, and where it
    /// failed the old ones stay.
    pub fn fetched(&mut self, kids: Option<Vec<String>>, now: u64)
        requires
            now + KEY_TTL_MS <= u64::MAX,
        ensures
            !final(self).fetching,
            final(self).cfg == old(self).cfg,
            final(self).next_attempt == Some((now + MIN_REFRESH_MS) as u64),
            match kids {
                Some(new) => final(self).kids == new && final(self).expires_at == Some(
                    (now + KEY_TTL_MS) as u64,
                ),
                None => final(self).kids == old(self).kids && final(self).expires_at == old(
                    self,
                ).expires_at,
            },
    {
        match kids {
            Some(new) => {
                self.kids = new;
                self.expires_at = Some(now + KEY_TTL_MS);
            },
            None => {},
        }
        self.fetching = false;
        self.next_attempt = Some(now + MIN_REFRESH_MS);
    }

    /// What a token with the key `kid` comes to once the fetch it waited for
    /// has ended; `Ok` means that it can be validated.
    pub fn after_fetch(&self, kid: &str, fetched: bool) -> (r: Result<(), Outcome>)
        ensures
            match r {
                Ok(_) => fetched && key_known(self.kids@, kid@),
                Err(e) => if fetched {
                    e == Outcome::UnknownKey && !key_known(self.kids@, kid@)
                } else {
                    e == Outcome::JwksUnavailable
                },
            },
    {
        if !fetched {
            return Err(Outcome::JwksUnavailable);
        }
        if self.knows(kid) {
            Ok(())
        } else {
            Err(Outcome::UnknownKey)
        }
    }
}

/// No second fetch starts while one is going on, nor within the floor after
/// one has ended, whatever keys tokens name.
pub proof fn fetches_are_bounded(before: Issuer, ended: Issuer, end: u64, now: u64)
    requires
        end + KEY_TTL_MS <= u64::MAX,
        ended.next_attempt == Some((end + MIN_REFRESH_MS) as u64),
        now < end + MIN_REFRESH_MS,
        before.fetching,
    ensures
        !before.may_fetch(now),
        !ended.may_fetch(now),
{
}

/// Whoever checks tokens: the trusted issuers.
pub struct Authenticator {
    /// The issuers, in the order of the configuration.
    pub issuers: Vec<Issuer>,
}

/// No issuer is configured. There is no way to turn authentication off.
#[derive(Debug, Clone, Copy, PartialEq, Eq, Structural)]
pub struct NoIssuers;

impl Authenticator {
    /// Trusts `issuers`, of which there must be one.
    pub fn new(issuers: Vec<IssuerConfig>) -> (r: Result<Self, NoIssuers>)
        ensures
            r is Err <==> issuers@.len() == 0,
            r matches Ok(a) ==> a.issuers@.len() == issuers@.len() && forall|i: int|
                0 <= i < issuers@.len() ==> (#[trigger] a.issuers@[i]).cfg == issuers@[i]
                    && a.issuers@[i].kids@.len() == 0 && a.issuers@[i].expires_at is None
                    && !a.issuers@[i].fetching && a.issuers@[i].next_attempt is None,
    {
        let mut rest = issuers;
        if rest.len() == 0 {
            return Err(NoIssuers);
        }
        let mut out: Vec<Issuer> = Vec::new();
        while rest.len() > 0
            invariant
                rest@ == issuers@.skip(out@.len() as int),
                out@.len() + rest@.len() == issuers@.len(),
                forall|i: int|
                    0 <= i < out@.len() ==> (#[trigger] out@[i]).cfg == issuers@[i]
                        && out@[i].kids@.len() == 0 && out@[i].expires_at is None
                        && !out@[i].fetching && out@[i].next_attempt is None,
            decreases rest@.len(),
        {
            let cfg = rest.remove(0);
            out.push(Issuer::new(cfg));
            assert(rest@ =~= issuers@.skip(out@.len() as int));
        }
        Ok(Authenticator { issuers: out })
    }

    /// Which issuer to verify a token against: the first with the name that
    /// the token gives. The name is not verified and decides nothing else.
    pub fn route(&self, issuer: Option<&str>) -> (r: Result<usize, Outcome>)
        ensures
            match r {
                Ok(i) => issuer is Some && i < self.issuers@.len()
                    && self.issuers@[i as int].cfg.issuer@ == issuer->0@ && forall|k: int|
                    0 <= k < i ==> (#[trigger] self.issuers@[k]).cfg.issuer@ != issuer->0@,
                Err(Outcome::Malformed) => issuer is None,
                Err(Outcome::UntrustedIssuer) => issuer is Some && forall|k: int|
                    0 <= k < self.issuers@.len() ==> (#[trigger] self.issuers@[k]).cfg.issuer@
                        != issuer->0@,
                Err(_) => false,
            },
    {
        let name = match issuer {
            None => {
                return Err(Outcome::Malformed);
            },
            Some(name) => name,
        };
        let mut i: usize = 0;
        while i < self.issuers.len()
            invariant
                i <= self.issuers@.len(),
                issuer is Some,
                name@ == issuer->0@,
                forall|k: int|
                    0 <= k < i ==> (#[trigger] self.issuers@[k]).cfg.issuer@ != issuer->0@,
            decreases self.issuers@.len() - i,
        {
            if same(self.issuers[i].cfg.issuer.as_str(), name) {
                return Ok(i);
            }
            i += 1;
        }
        Err(Outcome::UntrustedIssuer)
    }

    /// The issuer label of the metrics: a configured issuer's URL, never the
    /// one that a token gives, which anyone can set.
    pub fn label(&self, routed: Option<usize>) -> (r: String)
        requires
            routed matches Some(i) ==> i < self.issuers@.len(),
        ensures
            r@ == match routed {
                Some(i) => self.issuers@[i as int].cfg.issuer@,
                None => "unknown"@,
            },
    {
        match routed {
            Some(i) => self.issuers[i].cfg.issuer.clone(),
            None => "unknown".to_owned(),
        }
    }
}

/// The caller behind validated claims: let in, or refused as unauthorised.
pub fn grant(cfg: &IssuerConfig, claims: &Claims) -> (r: Result<Subject, (Outcome, Denied)>)
    ensures
        match r {
            Ok(s) => denial(*cfg, *claims) is None && s.0@ == claims.iss@ + "#"@ + claims.sub@,
            Err((outcome, d)) => outcome == Outcome::Unauthorized && denial(*cfg, *claims) == Some(
                d,
            ),
        },
{
    match authorize(cfg, claims) {
        Ok(_) => Ok(Subject(claims.iss.clone().concat("#").concat(claims.sub.as_str()))),
        Err(d) => Err((Outcome::Unauthorized, d)),
    }
}

impl Denied {
    /// What is logged of the refusal of `claims`.
    pub open spec fn text(self, claims: Claims) -> Seq<char> {
        match self {
            Denied::NoOwner => "token has no repository_owner_id"@,
            Denied::Owner => "repository owner is not authorized"@,
            Denied::Ref => "ref "@ + (match opt_text(claims.git_ref) {
                Some(r) => r,
                None => Seq::empty(),
            }) + " is not authorized"@,
            Denied::NoRefProtected => "token has no ref_protected"@,
            Denied::RefProtected => "ref protection status is not authorized"@,
            Denied::NoRepositoryId => "token has no repository_id"@,
            Denied::RepositoryId => "repository_id is not authorized"@,
            Denied::NoEventName => "token has no event_name"@,
            Denied::EventName => "event_name is not authorized"@,
            Denied::NoJobWorkflowRef => "token has no job_workflow_ref"@,
            Denied::JobWorkflowRef => "job_workflow_ref is not authorized"@,
            Denied::Group => "subject is not in an allowed group"@,
        }
    }

    /// What is logged of the refusal of `claims`.
    pub fn message(self, claims: &Claims) -> (r: String)
        ensures
            r@ == self.text(*claims),
    {
        match self {
            Denied::NoOwner => "token has no repository_owner_id".to_owned(),
            Denied::Owner => "repository owner is not authorized".to_owned(),
            Denied::Ref => {
                let name = match &claims.git_ref {
                    Some(r) => r.clone(),
                    None => String::new(),
                };
                "ref ".to_owned().concat(name.as_str()).concat(" is not authorized")
            },
            Denied::NoRefProtected => "token has no ref_protected".to_owned(),
            Denied::RefProtected => "ref protection status is not authorized".to_owned(),
            Denied::NoRepositoryId => "token has no repository_id".to_owned(),
            Denied::RepositoryId => "repository_id is not authorized".to_owned(),
            Denied::NoEventName => "token has no event_name".to_owned(),
            Denied::EventName => "event_name is not authorized".to_owned(),
            Denied::NoJobWorkflowRef => "token has no job_workflow_ref".to_owned(),
            Denied::JobWorkflowRef => "job_workflow_ref is not authorized".to_owned(),
            Denied::Group => "subject is not in an allowed group".to_owned(),
        }
    }
}

/// `s` with every character escaped that a reader could not see.
pub uninterp spec fn escaped(s: Seq<char>) -> Seq<char>;

/// `str::escape_debug`: control characters, quotes and backslashes come out as
/// escapes, so that no line break is left.
#[verifier::external_body]
fn escape(s: &str) -> (r: String)
    ensures
        r@ == escaped(s@),
        forall|i: int| 0 <= i < r@.len() ==> #[trigger] r@[i] != '\n',
{
    s.escape_debug().to_string()
}

/// How many characters of an error are logged.
pub const MAX_LOGGED: usize = 256;

/// The first 256 characters of `s`, and a mark where there were more.
pub open spec fn shortened(s: Seq<char>) -> Seq<char> {
    if s.len() <= MAX_LOGGED {
        s
    } else {
        s.take(MAX_LOGGED as int).push('\u{2026}')
    }
}

/// The first 256 characters of `s`, and a mark where there were more.
pub fn shorten(s: &str) -> (r: String)
    ensures
        r@ == shortened(s@),
        r@.len() <= MAX_LOGGED + 1,
{
    if s.unicode_len() <= MAX_LOGGED {
        s.to_owned()
    } else {
        let mut out = s.substring_char(0, MAX_LOGGED).to_owned();
        assert(s@.subrange(0, MAX_LOGGED as int) =~= s@.take(MAX_LOGGED as int));
        out.push('\u{2026}');
        out
    }
}

/// An authentication error for the log. It can carry text out of a token that
/// anyone may have made, so it is escaped, which leaves no way to forge a line,
/// and cut.
pub fn loggable(error: &str) -> (r: String)
    ensures
        r@ == shortened(escaped(error@)),
        r@.len() <= MAX_LOGGED + 1,
        forall|i: int| 0 <= i < r@.len() ==> #[trigger] r@[i] != '\n',
{
    let text = escape(error);
    shorten(text.as_str())
}

/// `s` without the slashes at its end.
pub open spec fn without_slashes(s: Seq<char>) -> Seq<char>
    decreases s.len(),
{
    if s.len() > 0 && s.last() == '/' {
        without_slashes(s.drop_last())
    } else {
        s
    }
}

/// `s` without the slashes at its end.
pub fn trim_slashes(s: &str) -> (r: &str)
    ensures
        r@ == without_slashes(s@),
{
    let chars = crate::text::to_chars(s);
    let mut to: usize = chars.len();
    assert(chars@.take(to as int) =~= s@);
    while to > 0 && chars[to - 1] == '/'
        invariant
            to <= chars@.len(),
            chars@ == s@,
            without_slashes(s@) == without_slashes(s@.take(to as int)),
        decreases to,
    {
        assert(s@.take(to as int).drop_last() =~= s@.take(to - 1));
        to -= 1;
    }
    let r = s.substring_char(0, to);
    assert(r@ =~= s@.take(to as int));
    r
}

/// Where an issuer describes itself.
pub fn openid_configuration_url(issuer: &str) -> (r: String)
    ensures
        r@ == without_slashes(issuer@) + "/.well-known/openid-configuration"@,
{
    trim_slashes(issuer).to_owned().concat("/.well-known/openid-configuration")
}

/// Where the keys of an issuer are.
#[derive(Debug)]
pub enum KeySource {
    /// At this URL.
    Remote(String),
    /// In this local file, which a developer may use.
    File(String),
    /// At the URL that the issuer's own description at this URL names.
    Described(String),
}

/// Where keys at `location` are: behind a URL, or in a local file.
pub open spec fn is_source(r: KeySource, location: Seq<char>) -> bool {
    match r {
        KeySource::Remote(url) => url@ == location && "http"@.is_prefix_of(location),
        KeySource::File(path) => path@ == location && !"http"@.is_prefix_of(location),
        KeySource::Described(_) => false,
    }
}

/// Where keys at `location` are.
pub fn key_source(location: &str) -> (r: KeySource)
    ensures
        is_source(r, location@),
{
    if starts_with(location, "http") {
        KeySource::Remote(location.to_owned())
    } else {
        KeySource::File(location.to_owned())
    }
}

/// Where the keys of an issuer are: where its configuration says, or else
/// where the issuer does.
pub fn jwks_url(cfg: &IssuerConfig) -> (r: KeySource)
    ensures
        match opt_text(cfg.jwks_url) {
            Some(location) => is_source(r, location),
            None => r matches KeySource::Described(url) && url@ == without_slashes(cfg.issuer@)
                + "/.well-known/openid-configuration"@,
        },
{
    match &cfg.jwks_url {
        Some(location) => key_source(location.as_str()),
        None => KeySource::Described(openid_configuration_url(cfg.issuer.as_str())),
    }
}

/// Keys count as fresh for an hour after they came, and the next fetch waits for
/// ten seconds after the last one ended, and for that one to end.
pub proof fn keys_are_fetched_in_time(issuer: Issuer, came: u64, ended: u64, now: u64)
    requires
        came + 3600000 <= u64::MAX,
        ended + 10000 <= u64::MAX,
        issuer.expires_at is Some ==> issuer.expires_at->0 == came + KEY_TTL_MS,
        issuer.next_attempt is Some ==> issuer.next_attempt->0 == ended + MIN_REFRESH_MS,
    ensures
        issuer.expires_at is None ==> issuer.expired(now),
        issuer.expires_at is Some ==> (issuer.expired(now) <==> now - came >= 3600000),
        issuer.fetching ==> !issuer.may_fetch(now),
        !issuer.fetching && issuer.next_attempt is None ==> issuer.may_fetch(now),
        !issuer.fetching && issuer.next_attempt is Some ==> (issuer.may_fetch(now) <==> now - ended
            >= 10000),
{
}

/// A key is known if, and only if, it was among those that came.
pub proof fn keys_are_known_by_name(kids: Seq<String>, kid: Seq<char>, i: int)
    ensures
        0 <= i < kids.len() && kids[i]@ == kid ==> key_known(kids, kid),
        key_known(kids, kid) ==> exists|j: int| 0 <= j < kids.len() && (#[trigger] kids[j])@ == kid,
        kids.len() == 0 ==> !key_known(kids, kid),
{
}

/// The payload of a token is what stands behind its first dot, up to the second
/// one if there is one.
pub proof fn payloads_stand_in_the_middle(head: Seq<char>, payload: Seq<char>, rest: Seq<char>)
    requires
        !head.contains('.'),
        !payload.contains('.'),
    ensures
        second_segment(head + seq!['.'] + payload + seq!['.'] + rest) == Some(payload),
        second_segment(head + seq!['.'] + payload) == Some(payload),
        second_segment(head) is None,
{
    let three = head + seq!['.'] + payload + seq!['.'] + rest;
    let two = head + seq!['.'] + payload;
    let n = head.len() as int;
    let tail = payload + seq!['.'] + rest;
    assert forall|k: int| 0 <= k < n implies three[k] != '.' && two[k] != '.' && head[k] != '.' by {
        assert(three[k] == head[k] && two[k] == head[k]);
        assert(head.contains(head[k]));
    }
    assert(three[n] == '.' && two[n] == '.');
    first_of_is(three, '.', n);
    first_of_is(two, '.', n);
    first_of_is(head, '.', n);
    assert(three.skip(n + 1) =~= tail);
    assert(two.skip(n + 1) =~= payload);
    let m = payload.len() as int;
    assert forall|k: int| 0 <= k < m implies tail[k] != '.' && payload[k] != '.' by {
        assert(tail[k] == payload[k]);
        assert(payload.contains(payload[k]));
    }
    assert(tail[m] == '.');
    first_of_is(tail, '.', m);
    first_of_is(payload, '.', m);
    assert(tail.take(m) =~= payload);
}

/// What is logged of an error is its beginning, 256 characters at most, with a
/// mark behind it only where something was cut off.
pub proof fn only_long_errors_are_cut(s: Seq<char>)
    ensures
        s.len() <= 256 ==> shortened(s) == s,
        s.len() > 256 ==> shortened(s).len() == 257 && shortened(s).take(256) == s.take(256)
            && shortened(s)[256] == '\u{2026}',
{
    if s.len() > 256 {
        assert(shortened(s).take(256) =~= s.take(256));
    }
}

/// Only slashes are cut off, and all of them that stand at the end.
pub proof fn all_slashes_are_cut(s: Seq<char>)
    ensures
        ({
            let r = without_slashes(s);
            &&& r.len() <= s.len()
            &&& r == s.take(r.len() as int)
            &&& r.len() > 0 ==> r.last() != '/'
            &&& forall|k: int| r.len() <= k < s.len() ==> s[k] == '/'
        }),
    decreases s.len(),
{
    if s.len() > 0 && s.last() == '/' {
        let t = s.drop_last();
        all_slashes_are_cut(t);
        let r = without_slashes(s);
        assert(t.take(r.len() as int) =~= s.take(r.len() as int));
        assert forall|k: int| r.len() <= k < s.len() implies s[k] == '/' by {
            if k < t.len() {
                assert(t[k] == '/');
            }
        }
    } else {
        assert(s.take(s.len() as int) =~= s);
    }
}

/// A list that is empty allows everything; any other allows a claim that fits one
/// of its entries, wherever that stands, refuses one that fits none, and misses
/// one that is not there.
pub proof fn lists_allow_what_fits_an_entry(
    allowed: Seq<String>,
    value: Seq<char>,
    claim: Option<Seq<char>>,
    how: Matching,
    i: int,
)
    ensures
        allowed.len() == 0 ==> listing_of(how, allowed, claim) == Listing::Allowed,
        allowed.len() > 0 ==> listing_of(how, allowed, None) == Listing::Absent,
        0 <= i < allowed.len() && allowed[i]@ == value ==> listing_of(
            Matching::Exact,
            allowed,
            Some(value),
        ) == Listing::Allowed,
        0 <= i < allowed.len() && is_or_begins(allowed[i]@, value) ==> listing_of(
            Matching::Pattern,
            allowed,
            Some(value),
        ) == Listing::Allowed,
        allowed.len() > 0 && (forall|k: int|
            0 <= k < allowed.len() ==> (#[trigger] allowed[k])@ != value) ==> listing_of(
            Matching::Exact,
            allowed,
            Some(value),
        ) == Listing::Refused,
        allowed.len() > 0 && (forall|k: int|
            0 <= k < allowed.len() ==> !is_or_begins((#[trigger] allowed[k])@, value)) ==> listing_of(
            Matching::Pattern,
            allowed,
            Some(value),
        ) == Listing::Refused,
{
    if 0 <= i < allowed.len() {
        patterns_match_by_prefix(allowed[i]@, value);
        if allowed[i]@ == value {
            assert(entry_fits(Matching::Exact, allowed[i]@, value));
        }
        if is_or_begins(allowed[i]@, value) {
            assert(entry_fits(Matching::Pattern, allowed[i]@, value));
        }
    }
    if some_entry_fits(Matching::Pattern, allowed, value) {
        let k = choose|k: int|
            0 <= k < allowed.len() && entry_fits(
                Matching::Pattern,
                (#[trigger] allowed[k])@,
                value,
            );
        patterns_match_by_prefix(allowed[k]@, value);
    }
}

/// Keys are fetched over the network where their place begins with `http`, and
/// read from a file where it does not.
pub proof fn keys_come_from_where_they_are(r: KeySource, location: Seq<char>)
    requires
        is_source(r, location),
    ensures
        location.len() >= 4 && location.take(4) == "http"@ ==> r is Remote && r->Remote_0@ == location,
        !(location.len() >= 4 && location.take(4) == "http"@) ==> r is File && r->File_0@ == location,
{
    reveal_strlit("http");
    if location.len() >= 4 && location.take(4) == "http"@ {
        assert("http"@ =~= location.subrange(0, 4));
    }
    if "http"@.is_prefix_of(location) {
        assert(location.take(4) =~= "http"@);
    }
}

} // verus!
