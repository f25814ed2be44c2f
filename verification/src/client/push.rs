//! Pushing closures: one negotiation, and then parallel uploads.

use vstd::prelude::*;
use vstd::string::*;
use vstd::utf8::is_ascii_chars;

use crate::common::{has_hash, hash_of_store_path, Preamble};
use crate::db::{copy_opt, copy_texts, hash_prefix, hashes_stand_in_front};
use crate::number::{
    decimal, decimal_reads_back, is_digit, only_numbers_are_read, parse_unsigned, read_unsigned, show,
};
use crate::text::{
    after_last, contains, cut_at, first_of, first_of_finds, first_of_is, lists, occurs, opt_str,
    only_white_ends_are_cut, opt_text, same, split_once, texts, trim, trim_back, trim_front, trimmed,
    white,
};

verus! {

/// What the client reads of `nix path-info`.
#[derive(Debug)]
pub struct PathInfo {
    /// Full store path.
    pub path: String,
    /// Hash of the uncompressed NAR.
    pub nar_hash: String,
    /// Size of the uncompressed NAR in bytes.
    pub nar_size: i64,
    /// Full store paths of the references.
    pub references: Vec<String>,
    /// The deriver, where Nix knows it.
    pub deriver: Option<String>,
    /// The content address of a content-addressed path.
    pub ca: Option<String>,
    /// Signatures, `<key name>:<base64>` each.
    pub signatures: Vec<String>,
}

/// What a [`PathInfo`] holds.
#[verifier::ext_equal]
pub struct PathInfoView {
    /// See [`PathInfo::path`].
    pub path: Seq<char>,
    /// See [`PathInfo::nar_hash`].
    pub nar_hash: Seq<char>,
    /// See [`PathInfo::nar_size`].
    pub nar_size: i64,
    /// See [`PathInfo::references`].
    pub references: Seq<Seq<char>>,
    /// See [`PathInfo::deriver`].
    pub deriver: Option<Seq<char>>,
    /// See [`PathInfo::ca`].
    pub ca: Option<Seq<char>>,
    /// See [`PathInfo::signatures`].
    pub signatures: Seq<Seq<char>>,
}

impl View for PathInfo {
    type V = PathInfoView;

    open spec fn view(&self) -> PathInfoView {
        PathInfoView {
            path: self.path@,
            nar_hash: self.nar_hash@,
            nar_size: self.nar_size,
            references: texts(self.references@),
            deriver: opt_text(self.deriver),
            ca: opt_text(self.ca),
            signatures: texts(self.signatures@),
        }
    }
}

impl Clone for PathInfo {
    fn clone(&self) -> (r: Self)
        ensures
            r@ == self@,
    {
        PathInfo {
            path: self.path.clone(),
            nar_hash: self.nar_hash.clone(),
            nar_size: self.nar_size,
            references: copy_texts(&self.references),
            deriver: copy_opt(&self.deriver),
            ca: copy_opt(&self.ca),
            signatures: copy_texts(&self.signatures),
        }
    }
}

/// The name of the key of a signature.
pub open spec fn key_name(sig: Seq<char>) -> Seq<char> {
    match cut_at(sig, ':') {
        Some((name, _)) => name,
        None => sig,
    }
}

/// One of `signatures` is by one of `upstream_keys`.
pub open spec fn is_upstream(signatures: Seq<Seq<char>>, upstream_keys: Seq<Seq<char>>) -> bool {
    exists|i: int|
        0 <= i < signatures.len() && upstream_keys.contains(key_name(#[trigger] signatures[i]))
}

/// Whether one of the signatures is by an upstream key. The name must be
/// equal: one that only contains the name of an upstream key is another key.
pub fn signed_upstream(signatures: &Vec<String>, upstream_keys: &Vec<String>) -> (r: bool)
    ensures
        r == is_upstream(texts(signatures@), texts(upstream_keys@)),
{
    let mut i: usize = 0;
    while i < signatures.len()
        invariant
            i <= signatures@.len(),
            forall|k: int|
                0 <= k < i ==> !texts(upstream_keys@).contains(
                    key_name(#[trigger] texts(signatures@)[k]),
                ),
        decreases signatures@.len() - i,
    {
        let sig = signatures[i].as_str();
        let name = match split_once(sig, ':') {
            Some((name, _)) => name,
            None => sig,
        };
        assert(texts(signatures@)[i as int] == sig@);
        if lists(upstream_keys, name) {
            return true;
        }
        i += 1;
    }
    false
}

/// Sorts a closure into what is to be pushed and what others serve already,
/// both in order. The latter never enters the negotiation.
pub fn partition_upstream(closure: Vec<PathInfo>, upstream_keys: &Vec<String>) -> (r: (
    Vec<PathInfo>,
    Vec<PathInfo>,
))
    ensures
        r.0@ == closure@.filter(
            |p: PathInfo| !is_upstream(texts(p.signatures@), texts(upstream_keys@)),
        ),
        r.1@ == closure@.filter(
            |p: PathInfo| is_upstream(texts(p.signatures@), texts(upstream_keys@)),
        ),
{
    let ghost ours = |p: PathInfo| !is_upstream(texts(p.signatures@), texts(upstream_keys@));
    let ghost theirs = |p: PathInfo| is_upstream(texts(p.signatures@), texts(upstream_keys@));
    let ghost all = closure@;
    let mut kept: Vec<PathInfo> = Vec::new();
    let mut upstream: Vec<PathInfo> = Vec::new();
    proof {
        reveal(Seq::filter);
        assert(all.take(0).filter(ours) =~= Seq::<PathInfo>::empty());
        assert(all.take(0).filter(theirs) =~= Seq::<PathInfo>::empty());
    }
    for p in it: closure
        invariant
            it.seq() == all,
            ours == (|p: PathInfo| !is_upstream(texts(p.signatures@), texts(upstream_keys@))),
            theirs == (|p: PathInfo| is_upstream(texts(p.signatures@), texts(upstream_keys@))),
            kept@ == all.take(it.index()).filter(ours),
            upstream@ == all.take(it.index()).filter(theirs),
    {
        proof {
            let i = it.index();
            reveal(Seq::filter);
            assert(all.take(i + 1).drop_last() =~= all.take(i));
            assert(all.take(i + 1).last() == p);
        }
        if signed_upstream(&p.signatures, upstream_keys) {
            upstream.push(p);
        } else {
            kept.push(p);
        }
    }
    assert(all.take(all.len() as int) =~= all);
    (kept, upstream)
}

/// Every path of a closure ends up on one side or the other, as often as it
/// stands in it.
pub proof fn partition_loses_nothing(closure: Seq<PathInfo>, keys: Seq<Seq<char>>)
    ensures
        closure.filter(|p: PathInfo| !is_upstream(texts(p.signatures@), keys)).to_multiset().add(
            closure.filter(|p: PathInfo| is_upstream(texts(p.signatures@), keys)).to_multiset(),
        ) == closure.to_multiset(),
    decreases closure.len(),
{
    broadcast use vstd::seq_lib::group_to_multiset_ensures;

    reveal(Seq::filter);
    let ours = |p: PathInfo| !is_upstream(texts(p.signatures@), keys);
    let theirs = |p: PathInfo| is_upstream(texts(p.signatures@), keys);
    if closure.len() == 0 {
        assert(closure.filter(ours) =~= closure);
        assert(closure.filter(theirs) =~= closure);
        assert(closure.to_multiset().add(closure.to_multiset()) =~= closure.to_multiset());
    } else {
        let init = closure.drop_last();
        let last = closure.last();
        partition_loses_nothing(init, keys);
        assert(closure =~= init.push(last));
        let a = init.filter(ours).to_multiset();
        let b = init.filter(theirs).to_multiset();
        if ours(last) {
            assert(closure.filter(ours) == init.filter(ours).push(last));
            assert(a.insert(last).add(b) =~= a.add(b).insert(last));
        } else {
            assert(closure.filter(theirs) == init.filter(theirs).push(last));
            assert(a.add(b.insert(last)) =~= a.add(b).insert(last));
        }
    }
}

/// The hashes of `paths` can all be cut off.
pub open spec fn all_have_hashes(paths: Seq<PathInfo>) -> bool {
    forall|i: int| 0 <= i < paths.len() ==> has_hash((#[trigger] paths[i]).path@)
}

/// The hash of a store path.
pub open spec fn path_hash(path: Seq<char>) -> Seq<char> {
    hash_prefix(after_last(path, '/'))
}

/// The hashes that are negotiated, in order.
pub fn hashes(closure: &Vec<PathInfo>) -> (r: Vec<String>)
    requires
        all_have_hashes(closure@),
    ensures
        texts(r@) == closure@.map_values(|p: PathInfo| path_hash(p.path@)),
{
    let mut out: Vec<String> = Vec::new();
    let mut i: usize = 0;
    while i < closure.len()
        invariant
            i <= closure@.len(),
            all_have_hashes(closure@),
            out@.len() == i,
            forall|k: int| 0 <= k < i ==> (#[trigger] out@[k])@ == path_hash(closure@[k].path@),
        decreases closure@.len() - i,
    {
        out.push(hash_of_store_path(closure[i].path.as_str()).to_owned());
        i += 1;
    }
    assert(texts(out@) =~= closure@.map_values(|p: PathInfo| path_hash(p.path@)));
    out
}

/// What of a closure the server does not have, in order.
pub fn still_missing(closure: Vec<PathInfo>, missing: &Vec<String>) -> (r: Vec<PathInfo>)
    requires
        all_have_hashes(closure@),
    ensures
        r@ == closure@.filter(|p: PathInfo| texts(missing@).contains(path_hash(p.path@))),
{
    let ghost wanted = |p: PathInfo| texts(missing@).contains(path_hash(p.path@));
    let ghost all = closure@;
    let mut out: Vec<PathInfo> = Vec::new();
    proof {
        reveal(Seq::filter);
        assert(all.take(0).filter(wanted) =~= Seq::<PathInfo>::empty());
    }
    for p in it: closure
        invariant
            it.seq() == all,
            all_have_hashes(all),
            wanted == (|p: PathInfo| texts(missing@).contains(path_hash(p.path@))),
            out@ == all.take(it.index()).filter(wanted),
    {
        proof {
            let i = it.index();
            reveal(Seq::filter);
            assert(all.take(i + 1).drop_last() =~= all.take(i));
            assert(all.take(i + 1).last() == p);
            assert(has_hash(all[i].path@));
        }
        if lists(missing, hash_of_store_path(p.path.as_str())) {
            out.push(p);
        }
    }
    assert(all.take(all.len() as int) =~= all);
    out
}

/// The usual words for a status, where there are some.
pub uninterp spec fn usual_words(status: u16) -> Option<Seq<char>>;

/// `reqwest::StatusCode::canonical_reason`: the usual words for a status.
#[verifier::external_body]
fn reason(status: u16) -> (r: Option<String>)
    requires
        100 <= status <= 999,
    ensures
        opt_text(r) == usual_words(status),
{
    reqwest::StatusCode::from_u16(status).ok()?.canonical_reason().map(str::to_owned)
}

/// A status with its usual words.
pub open spec fn status_text(status: u16) -> Seq<char> {
    decimal(status as nat) + " "@ + match usual_words(status) {
        Some(words) => words,
        None => "<unknown status code>"@,
    }
}

pub(crate) fn show_status(status: u16) -> (r: String)
    requires
        100 <= status <= 999,
    ensures
        r@ == status_text(status),
{
    let head = show(status as u64).concat(" ");
    match reason(status) {
        Some(words) => head.concat(words.as_str()),
        None => head.concat("<unknown status code>"),
    }
}

/// What a negotiation is told that was answered with `status`.
pub open spec fn negotiation_text(status: u16, body: Seq<char>) -> Seq<char> {
    "negotiation rejected with "@ + status_text(status) + ": "@ + trimmed(body)
}

/// What to do about the answer to a negotiation.
pub enum Negotiation {
    /// Read the list of what is missing.
    Read,
    /// Replace the token and ask again, once.
    Renew,
    /// Give up, with this message.
    Rejected(String),
}

/// Judges the answer to a negotiation. A token may have expired or been
/// revoked since it was issued: it is replaced once, and a second refusal is
/// one.
pub fn judge_negotiation(status: u16, body: &str, renewed: bool) -> (r: Negotiation)
    requires
        100 <= status <= 999,
    ensures
        match r {
            Negotiation::Renew => status == 401 && !renewed,
            Negotiation::Read => 200 <= status <= 299,
            Negotiation::Rejected(message) => !(200 <= status <= 299) && !(status == 401
                && !renewed) && message@ == negotiation_text(status, body@),
        },
{
    if status == 401 && !renewed {
        return Negotiation::Renew;
    }
    if 200 <= status && status <= 299 {
        return Negotiation::Read;
    }
    Negotiation::Rejected(
        "negotiation rejected with ".to_owned().concat(show_status(status).as_str()).concat(
            ": ",
        ).concat(trim(body)),
    )
}

/// What stands in front of the NAR of a path.
pub fn preamble_of(info: &PathInfo) -> (r: Preamble)
    ensures
        r.store_path@ == info.path@,
        r.nar_hash@ == info.nar_hash@,
        r.nar_size == info.nar_size,
        texts(r.references@) == texts(info.references@),
        opt_text(r.deriver) == opt_text(info.deriver),
        opt_text(r.ca) == opt_text(info.ca),
{
    Preamble {
        store_path: info.path.clone(),
        nar_hash: info.nar_hash.clone(),
        nar_size: info.nar_size,
        references: copy_texts(&info.references),
        deriver: copy_opt(&info.deriver),
        ca: copy_opt(&info.ca),
    }
}

/// Where a path is uploaded to.
pub fn upload_url(endpoint: &str, path: &str) -> (r: String)
    requires
        has_hash(path@),
    ensures
        r@ == endpoint@ + "/api/v1/nar/"@ + path_hash(path@),
{
    endpoint.to_owned().concat("/api/v1/nar/").concat(hash_of_store_path(path))
}

/// Seconds for which one path waits while the server turns uploads away: long
/// enough to queue behind several long uploads, and short enough for a server
/// that never frees a place to fail the run.
pub const SHED_DEADLINE: u64 = 900;

/// The kind of an I/O error, as far as it matters here.
#[derive(Debug, Clone, Copy, PartialEq, Eq, Structural)]
pub enum IoKind {
    /// The other side no longer reads.
    BrokenPipe,
    /// The other side reset the connection.
    ConnectionReset,
    /// The connection was aborted.
    ConnectionAborted,
    /// The other side stopped in the middle.
    UnexpectedEof,
    /// Anything else.
    Other,
}

/// One link of a chain of causes.
#[derive(Debug)]
pub enum Cause {
    /// An I/O error.
    Io(IoKind),
    /// Another error, as it is shown.
    Shown(String),
}

/// The I/O error says that the connection was dropped.
pub open spec fn is_drop(kind: IoKind) -> bool {
    kind != IoKind::Other
}

/// Going down a chain of causes, the first I/O error says that the connection
/// was dropped, or an error before it does.
pub open spec fn dropped(causes: Seq<Cause>) -> bool
    decreases causes.len(),
{
    if causes.len() == 0 {
        false
    } else {
        match causes[0] {
            Cause::Io(kind) => is_drop(kind),
            Cause::Shown(text) => occurs(text@, "connection closed before message completed"@)
                || dropped(causes.skip(1)),
        }
    }
}

/// Whether a chain of causes, the outermost first, says that the connection
/// was dropped. The server may answer before it has read the body and close the
/// connection then, and a client that is still writing may lose the answer: that
/// cannot be told from a drop, and both can be tried again.
pub fn connection_dropped(causes: &Vec<Cause>) -> (r: bool)
    ensures
        r == dropped(causes@),
{
    let mut i: usize = 0;
    assert(causes@.skip(0) =~= causes@);
    while i < causes.len()
        invariant
            i <= causes@.len(),
            dropped(causes@) == dropped(causes@.skip(i as int)),
        decreases causes@.len() - i,
    {
        assert(causes@.skip(i as int).skip(1) =~= causes@.skip(i as int + 1));
        match &causes[i] {
            Cause::Io(kind) => {
                return match *kind {
                    IoKind::Other => false,
                    _ => true,
                };
            },
            Cause::Shown(text) => {
                if contains(text.as_str(), "connection closed before message completed") {
                    return true;
                }
            },
        }
        i += 1;
    }
    false
}

/// Why an upload failed.
#[derive(Debug)]
pub enum UploadError {
    /// The server turned it away and said when to come back, in seconds.
    Shed(u64),
    /// The server refused the token, with this body.
    Unauthorized(String),
    /// The server answered otherwise.
    Rejected {
        /// The status.
        status: u16,
        /// The body.
        body: String,
    },
    /// Nothing moved for too long.
    Stalled,
    /// The connection failed.
    Connection {
        /// What was being done.
        doing: String,
        /// It took too long.
        timed_out: bool,
        /// It could not be made.
        connect: bool,
        /// The causes, the outermost first.
        causes: Vec<Cause>,
    },
    /// Something else failed.
    Other(String),
}

impl UploadError {
    /// The status of a rejection is one.
    pub open spec fn wf(self) -> bool {
        self matches UploadError::Rejected { status, .. } ==> 100 <= status <= 999
    }

    /// What is told of it, in one line.
    pub open spec fn text(self) -> Seq<char> {
        match self {
            UploadError::Shed(secs) => "server is shedding load (429), retry after "@ + decimal(
                secs as nat,
            ) + "s"@,
            UploadError::Unauthorized(body) => "upload rejected with "@ + status_text(401) + ": "@
                + body@,
            UploadError::Rejected { status, body } => "upload rejected with "@ + status_text(status)
                + ": "@ + trimmed(body@),
            UploadError::Stalled => "upload stalled: no progress for 300s"@,
            UploadError::Connection { doing, .. } => doing@,
            UploadError::Other(message) => message@,
        }
    }

    /// What is told of it, in one line.
    pub fn message(&self) -> (r: String)
        requires
            self.wf(),
        ensures
            r@ == self.text(),
    {
        match self {
            UploadError::Shed(secs) =>
                "server is shedding load (429), retry after ".to_owned().concat(
                show(*secs).as_str(),
            ).concat("s"),
            UploadError::Unauthorized(body) => "upload rejected with ".to_owned().concat(
                show_status(401).as_str(),
            ).concat(": ").concat(body.as_str()),
            UploadError::Rejected { status, body } => "upload rejected with ".to_owned().concat(
                show_status(*status).as_str(),
            ).concat(": ").concat(trim(body.as_str())),
            UploadError::Stalled => "upload stalled: no progress for 300s".to_owned(),
            UploadError::Connection { doing, .. } => doing.clone(),
            UploadError::Other(message) => message.clone(),
        }
    }

    /// Another try may help: the server failed, or the connection was dropped,
    /// timed out or stalled. What else the server refuses is the client's fault.
    pub open spec fn retryable(self) -> bool {
        ||| self matches UploadError::Rejected { status, .. } && 500 <= status <= 599
        ||| self is Stalled
        ||| self matches UploadError::Connection { timed_out, connect, causes, .. } && (timed_out
            || connect || dropped(causes@))
    }
}

/// Whether another try may help.
pub fn is_retryable(error: &UploadError) -> (r: bool)
    ensures
        r == error.retryable(),
{
    match error {
        UploadError::Rejected { status, .. } => 500 <= *status && *status <= 599,
        UploadError::Stalled => true,
        UploadError::Connection { timed_out, connect, causes, .. } => *timed_out || *connect
            || connection_dropped(causes),
        _ => false,
    }
}

/// Every rejection by a failing server is tried again, whatever its body says.
pub proof fn server_errors_are_retryable(status: u16, body: String)
    requires
        500 <= status <= 599,
    ensures
        (UploadError::Rejected { status, body }).retryable(),
{
}

/// What is the client's fault is never tried again, whatever the body says.
pub proof fn client_errors_are_not_retryable(status: u16, body: String)
    requires
        400 <= status <= 499,
    ensures
        !(UploadError::Rejected { status, body }).retryable(),
        !UploadError::Unauthorized(body).retryable(),
{
}

/// What a 429 asks: seconds to wait, at least one and at most the deadline, so
/// that neither nothing nor an absurd number can do harm.
pub open spec fn shed_secs(retry_after: Option<Seq<char>>) -> int {
    match retry_after {
        None => 1,
        Some(v) => match parse_unsigned(trimmed(v), u64::MAX as int) {
            None => 1,
            Some(n) => if n < 1 {
                1
            } else if n > SHED_DEADLINE {
                SHED_DEADLINE as int
            } else {
                n
            },
        },
    }
}

/// How long a `Retry-After` header asks to wait, in seconds. One that is
/// absent or cannot be read asks for a second.
pub fn shed_for(retry_after: Option<&str>) -> (r: u64)
    ensures
        r == shed_secs(opt_str(retry_after)),
        1 <= r <= SHED_DEADLINE,
{
    match retry_after {
        None => 1,
        Some(v) => match read_unsigned(trim(v), u64::MAX) {
            None => 1,
            Some(n) => if n < 1 {
                1
            } else if n > SHED_DEADLINE {
                SHED_DEADLINE
            } else {
                n
            },
        },
    }
}

/// Judges the status of the answer to an upload.
pub fn judge_upload(status: u16, retry_after: Option<&str>, body: &str) -> (r: Result<
    (),
    UploadError,
>)
    requires
        100 <= status <= 999,
    ensures
        match r {
            Ok(_) => 200 <= status <= 299,
            Err(UploadError::Shed(secs)) => status == 429 && secs == shed_secs(
                opt_str(retry_after),
            ),
            Err(UploadError::Unauthorized(b)) => status == 401 && b@ == trimmed(body@),
            Err(UploadError::Rejected { status: s, body: b }) => !(200 <= status <= 299) && status
                != 429 && status != 401 && s == status && b@ == body@,
            Err(_) => false,
        },
        r matches Err(e) ==> e.wf(),
{
    if status == 429 {
        return Err(UploadError::Shed(shed_for(retry_after)));
    }
    if status == 401 {
        return Err(UploadError::Unauthorized(trim(body).to_owned()));
    }
    if 200 <= status && status <= 299 {
        Ok(())
    } else {
        Err(UploadError::Rejected { status, body: body.to_owned() })
    }
}

/// What became of a path.
#[derive(Debug, Clone, Copy, PartialEq, Eq, Structural)]
pub enum Status {
    /// It was uploaded.
    Pushed,
    /// It was uploaded, and found to be there already.
    Deduped,
    /// It could not be uploaded.
    Failed,
    /// Others serve it already.
    Upstream,
    /// It would be uploaded.
    WouldPush,
}

impl Status {
    /// The word for it.
    pub open spec fn text(self) -> Seq<char> {
        match self {
            Status::Pushed => "pushed"@,
            Status::Deduped => "deduped"@,
            Status::Failed => "failed"@,
            Status::Upstream => "upstream"@,
            Status::WouldPush => "would-push"@,
        }
    }

    /// The word for it.
    pub fn word(self) -> (r: &'static str)
        ensures
            r@ == self.text(),
    {
        match self {
            Status::Pushed => "pushed",
            Status::Deduped => "deduped",
            Status::Failed => "failed",
            Status::Upstream => "upstream",
            Status::WouldPush => "would-push",
        }
    }
}

/// What the server's word for an accepted upload means: the first writer wins,
/// and that another one finished it is a success.
pub fn acknowledged(word: &str) -> (r: Status)
    ensures
        r == if word@ == "exists"@ || word@ == "in-progress"@ {
            Status::Deduped
        } else {
            Status::Pushed
        },
{
    if same(word, "exists") || same(word, "in-progress") {
        Status::Deduped
    } else {
        Status::Pushed
    }
}

/// Jitter in milliseconds, out of the microseconds of the clock and below the
/// delay.
pub fn fastrand_millis(delay_ms: u64, micros: u64) -> (r: u64)
    ensures
        r == micros as int % (if delay_ms == 0 {
            1
        } else {
            delay_ms as int
        }),
        delay_ms > 0 ==> r < delay_ms,
        delay_ms == 0 ==> r == 0,
{
    let bound: u64 = if delay_ms == 0 {
        1
    } else {
        delay_ms
    };
    micros % bound
}

/// A time in milliseconds with jitter out of the microseconds of the clock.
pub open spec fn jittered(ms: int, micros: u64) -> int {
    ms + micros as int % (if ms == 0 {
        1
    } else {
        ms
    })
}

/// What to do after `error`, and what is remembered of it.
pub open spec fn backed_off(
    before: Backoff,
    after: Backoff,
    error: UploadError,
    now_ms: u64,
    micros: u64,
    next: Next,
) -> bool {
    &&& after.started_ms == before.started_ms
    &&& after.max_retries == before.max_retries
    &&& match error {
        UploadError::Shed(secs) => {
            let wait = jittered(secs * 1000, micros);
            &&& after.retries == 0
            &&& after.delay_ms == 250
            &&& next == if now_ms - before.started_ms + wait <= SHED_DEADLINE * 1000 {
                Next::Wait(wait as u64)
            } else {
                Next::GiveUp
            }
        },
        _ => if before.retries >= before.max_retries || !error.retryable() {
            next == Next::GiveUp && after == before
        } else {
            &&& after.retries == before.retries + 1
            &&& after.delay_ms == before.delay_ms * 2
            &&& next == Next::Wait(jittered(before.delay_ms as int, micros) as u64)
        },
    }
}

/// When one path is tried again.
pub struct Backoff {
    /// When the first try began, in milliseconds.
    pub started_ms: u64,
    /// Failures in a row so far that were tried again.
    pub retries: u32,
    /// How many may be.
    pub max_retries: u32,
    /// The next wait, in milliseconds.
    pub delay_ms: u64,
}

impl Backoff {
    /// The first wait is a quarter of a second.
    pub fn new(max_retries: u32, now_ms: u64) -> (r: Self)
        ensures
            r == (Backoff { started_ms: now_ms, retries: 0, max_retries, delay_ms: 250 }),
    {
        Backoff { started_ms: now_ms, retries: 0, max_retries, delay_ms: 250 }
    }

    /// How long to wait, in milliseconds, before another try; `None` to give
    /// up. A server that turns uploads away has a queue and no fault: that waits
    /// as long as the deadline allows, and never counts as a failure; it even
    /// forgets those before it. Other failures that another try may help wait
    /// twice as long each time. Every wait has jitter.
    pub fn next(&mut self, error: &UploadError, now_ms: u64, micros: u64) -> (r: Option<u64>)
        requires
            old(self).started_ms <= now_ms,
            now_ms <= u64::MAX / 2,
            old(self).delay_ms < u64::MAX / 4,
            error matches UploadError::Shed(secs) ==> secs <= SHED_DEADLINE,
        ensures
            backed_off(
                *old(self),
                *final(self),
                *error,
                now_ms,
                micros,
                match r {
                    Some(wait) => Next::Wait(wait),
                    None => Next::GiveUp,
                },
            ),
    {
        match error {
            UploadError::Shed(secs) => {
                self.retries = 0;
                self.delay_ms = 250;
                let after: u64 = *secs * 1000;
                let wait: u64 = after + fastrand_millis(after, micros);
                if now_ms - self.started_ms + wait <= SHED_DEADLINE * 1000 {
                    Some(wait)
                } else {
                    None
                }
            },
            _ => {
                if self.retries >= self.max_retries || !is_retryable(error) {
                    return None;
                }
                let wait: u64 = self.delay_ms + fastrand_millis(self.delay_ms, micros);
                self.retries = self.retries + 1;
                self.delay_ms = self.delay_ms * 2;
                Some(wait)
            },
        }
    }
}

/// What to do when a try to upload a path has failed.
#[derive(Debug, Clone, Copy, PartialEq, Eq, Structural)]
pub enum Next {
    /// Replace the token, and say whether that worked.
    Renew,
    /// Wait so many milliseconds, and try again.
    Wait(u64),
    /// Give up.
    GiveUp,
}

/// The tries to upload one path.
pub struct PushOne {
    /// When the path is tried again.
    pub backoff: Backoff,
    /// The token was replaced.
    pub renewed: bool,
}

impl PushOne {
    /// Before the first try.
    pub fn new(max_retries: u32, now_ms: u64) -> (r: Self)
        ensures
            r.backoff == (Backoff { started_ms: now_ms, retries: 0, max_retries, delay_ms: 250 }),
            !r.renewed,
    {
        PushOne { backoff: Backoff::new(max_retries, now_ms), renewed: false }
    }

    /// The times and the delay fit the counters.
    pub open spec fn fits(self, error: UploadError, now_ms: u64) -> bool {
        &&& self.backoff.started_ms <= now_ms <= u64::MAX / 2
        &&& self.backoff.delay_ms < u64::MAX / 4
        &&& error matches UploadError::Shed(secs) ==> secs <= SHED_DEADLINE
    }

    /// A try has failed. The token may have expired or been revoked in the
    /// middle of the run: it is replaced once. A second refusal is one.
    pub fn failed(&mut self, error: &UploadError, now_ms: u64, micros: u64) -> (r: Next)
        requires
            old(self).fits(*error, now_ms),
        ensures
            final(self).renewed == old(self).renewed,
            r == Next::Renew <==> !old(self).renewed && error is Unauthorized,
            r == Next::Renew ==> *final(self) == *old(self),
            r != Next::Renew ==> backed_off(
                old(self).backoff,
                final(self).backoff,
                *error,
                now_ms,
                micros,
                r,
            ),
    {
        match error {
            UploadError::Unauthorized(_) => {
                if !self.renewed {
                    return Next::Renew;
                }
            },
            _ => {},
        }
        match self.backoff.next(error, now_ms, micros) {
            Some(wait) => Next::Wait(wait),
            None => Next::GiveUp,
        }
    }

    /// The token was replaced, or cannot be. A replaced one is used at once.
    pub fn renewal(&mut self, got: bool, error: &UploadError, now_ms: u64, micros: u64) -> (r: Next)
        requires
            old(self).fits(*error, now_ms),
        ensures
            got ==> r == Next::Wait(0) && final(self).renewed && final(self).backoff == old(
                self,
            ).backoff,
            !got ==> final(self).renewed == old(self).renewed && backed_off(
                old(self).backoff,
                final(self).backoff,
                *error,
                now_ms,
                micros,
                r,
            ),
    {
        if got {
            self.renewed = true;
            return Next::Wait(0);
        }
        match self.backoff.next(error, now_ms, micros) {
            Some(wait) => Next::Wait(wait),
            None => Next::GiveUp,
        }
    }
}

/// What a run did.
#[derive(Debug, Clone, Copy, PartialEq, Eq, Structural)]
pub struct Summary {
    /// Paths uploaded.
    pub pushed: usize,
    /// Paths uploaded and found to be there already.
    pub deduped: usize,
    /// Paths that could not be uploaded.
    pub failed: usize,
    /// Bytes of all NARs, uncompressed.
    pub nar_bytes: u64,
}

/// How many of `statuses` are `s`.
pub open spec fn count(statuses: Seq<Status>, s: Status) -> nat
    decreases statuses.len(),
{
    if statuses.len() == 0 {
        0
    } else {
        count(statuses.drop_last(), s) + if statuses.last() == s {
            1nat
        } else {
            0nat
        }
    }
}

/// The bytes of the NARs of `paths`.
pub open spec fn nar_total(paths: Seq<PathInfo>) -> int
    decreases paths.len(),
{
    if paths.len() == 0 {
        0
    } else {
        nar_total(paths.drop_last()) + if paths.last().nar_size > 0 {
            paths.last().nar_size as int
        } else {
            0
        }
    }
}

proof fn total_of_fewer(paths: Seq<PathInfo>, n: int)
    requires
        0 <= n <= paths.len(),
    ensures
        0 <= nar_total(paths.take(n)) <= nar_total(paths),
    decreases paths.len(),
{
    if n == paths.len() {
        assert(paths.take(n) =~= paths);
        if n > 0 {
            total_of_fewer(paths.drop_last(), n - 1);
            assert(paths.drop_last().take(n - 1) =~= paths.drop_last());
        }
    } else {
        total_of_fewer(paths.drop_last(), n);
        assert(paths.drop_last().take(n) =~= paths.take(n));
    }
}

/// The bytes of the NARs of `paths`.
pub fn nar_bytes(paths: &Vec<PathInfo>) -> (r: u64)
    requires
        nar_total(paths@) <= u64::MAX,
    ensures
        r == nar_total(paths@),
{
    let mut sum: u64 = 0;
    let mut i: usize = 0;
    while i < paths.len()
        invariant
            i <= paths@.len(),
            nar_total(paths@) <= u64::MAX,
            sum == nar_total(paths@.take(i as int)),
        decreases paths@.len() - i,
    {
        proof {
            total_of_fewer(paths@, i as int + 1);
            assert(paths@.take(i as int + 1).drop_last() =~= paths@.take(i as int));
        }
        if paths[i].nar_size > 0 {
            sum += paths[i].nar_size as u64;
        }
        i += 1;
    }
    assert(paths@.take(i as int) =~= paths@);
    sum
}

/// Counts what became of the paths of a run.
pub fn summarize(statuses: &Vec<Status>, nar_bytes: u64) -> (r: Summary)
    ensures
        r.pushed == count(statuses@, Status::Pushed),
        r.deduped == count(statuses@, Status::Deduped),
        r.failed == count(statuses@, Status::Failed),
        r.nar_bytes == nar_bytes,
{
    let mut pushed: usize = 0;
    let mut deduped: usize = 0;
    let mut failed: usize = 0;
    let mut i: usize = 0;
    while i < statuses.len()
        invariant
            i <= statuses@.len(),
            pushed <= i,
            deduped <= i,
            failed <= i,
            pushed == count(statuses@.take(i as int), Status::Pushed),
            deduped == count(statuses@.take(i as int), Status::Deduped),
            failed == count(statuses@.take(i as int), Status::Failed),
        decreases statuses@.len() - i,
    {
        assert(statuses@.take(i as int + 1).drop_last() =~= statuses@.take(i as int));
        match statuses[i] {
            Status::Pushed => {
                pushed += 1;
            },
            Status::Deduped => {
                deduped += 1;
            },
            Status::Failed => {
                failed += 1;
            },
            _ => {},
        }
        i += 1;
    }
    assert(statuses@.take(i as int) =~= statuses@);
    Summary { pushed, deduped, failed, nar_bytes }
}

/// Every path of a run is told of once: as pushed, deduplicated or failed.
pub proof fn summary_counts_every_path(statuses: Seq<Status>)
    requires
        forall|i: int|
            0 <= i < statuses.len() ==> #[trigger] statuses[i] != Status::Upstream && statuses[i]
                != Status::WouldPush,
    ensures
        count(statuses, Status::Pushed) + count(statuses, Status::Deduped) + count(
            statuses,
            Status::Failed,
        ) == statuses.len(),
    decreases statuses.len(),
{
    if statuses.len() > 0 {
        summary_counts_every_path(statuses.drop_last());
    }
}

/// What is told while a run goes on.
#[derive(Debug)]
pub enum Event {
    /// The negotiation is over.
    Negotiated {
        /// Paths in the closure.
        closure: usize,
        /// Paths that others serve.
        upstream: usize,
        /// Paths that the server does not have.
        missing: usize,
        /// Bytes of their NARs.
        nar_bytes: u64,
    },
    /// One path is done with.
    Path {
        /// The path.
        path: String,
        /// What became of it.
        status: Status,
        /// The size of its NAR.
        nar_size: i64,
        /// Why it failed.
        error: Option<String>,
    },
    /// The run is over.
    Done(Summary),
}

/// The negotiation in words. What others serve is told only where there is
/// some.
pub open spec fn negotiated_text(closure: int, upstream: int, missing: int) -> Seq<char> {
    if upstream == 0 {
        decimal(closure as nat) + " path(s) in closure, "@ + decimal(missing as nat) + " missing"@
    } else {
        decimal(closure as nat) + " path(s) in closure, "@ + decimal(upstream as nat)
            + " served upstream, "@ + decimal(missing as nat) + " missing"@
    }
}

/// The negotiation in words.
pub fn negotiated_line(closure: usize, upstream: usize, missing: usize) -> (r: String)
    ensures
        r@ == negotiated_text(closure as int, upstream as int, missing as int),
{
    let head = show(closure as u64).concat(" path(s) in closure, ");
    if upstream == 0 {
        head.concat(show(missing as u64).as_str()).concat(" missing")
    } else {
        head.concat(show(upstream as u64).as_str()).concat(" served upstream, ").concat(
            show(missing as u64).as_str(),
        ).concat(" missing")
    }
}

/// `s` with blanks behind it, up to `n` characters.
pub open spec fn padded(s: Seq<char>, n: nat) -> Seq<char>
    decreases n - s.len(),
{
    if s.len() >= n {
        s
    } else {
        padded(s.push(' '), n)
    }
}

/// `s` with blanks behind it, up to `n` characters.
pub fn pad(s: &str, n: usize) -> (r: String)
    ensures
        r@ == padded(s@, n as nat),
{
    let mut out = s.to_owned();
    let mut len: usize = s.unicode_len();
    while len < n
        invariant
            len == out@.len(),
            padded(s@, n as nat) == padded(out@, n as nat),
        decreases n - len,
    {
        out.push(' ');
        len += 1;
    }
    out
}

impl Event {
    /// The event in words.
    pub open spec fn text(self) -> Seq<char> {
        match self {
            Event::Negotiated { closure, upstream, missing, .. } => negotiated_text(
                closure as int,
                upstream as int,
                missing as int,
            ),
            Event::Path { path, status, error, .. } => match error {
                Some(e) => "  failed   "@ + path@ + ": "@ + e@,
                None => "  "@ + padded(status.text(), 8) + " "@ + path@,
            },
            Event::Done(s) => "done: "@ + decimal(s.pushed as nat) + " pushed, "@ + decimal(
                s.deduped as nat,
            ) + " deduped, "@ + decimal(s.failed as nat) + " failed"@,
        }
    }

    /// The event in words.
    pub fn line(&self) -> (r: String)
        ensures
            r@ == self.text(),
    {
        match self {
            Event::Negotiated { closure, upstream, missing, .. } => negotiated_line(
                *closure,
                *upstream,
                *missing,
            ),
            Event::Path { path, status, error, .. } => match error {
                Some(e) => "  failed   ".to_owned().concat(path.as_str()).concat(": ").concat(
                    e.as_str(),
                ),
                None => "  ".to_owned().concat(pad(status.word(), 8).as_str()).concat(" ").concat(
                    path.as_str(),
                ),
            },
            Event::Done(s) => "done: ".to_owned().concat(show(s.pushed as u64).as_str()).concat(
                " pushed, ",
            ).concat(show(s.deduped as u64).as_str()).concat(" deduped, ").concat(
                show(s.failed as u64).as_str(),
            ).concat(" failed"),
        }
    }
}

/// What a run that uploads nothing says of an event. `size` is how much would
/// be uploaded, in words.
pub open spec fn dry_text(event: Event, size: Seq<char>) -> Seq<char> {
    match event {
        Event::Negotiated { .. } => event.text(),
        Event::Path { path, status, .. } => "  "@ + padded(status.text(), 10) + " "@ + path@,
        Event::Done(_) => size + " to upload (uncompressed)"@,
    }
}

/// What a run that uploads nothing says of an event. `size` is how much would
/// be uploaded, in words.
pub fn dry_line(event: &Event, size: &str) -> (r: String)
    ensures
        r@ == dry_text(*event, size@),
{
    match event {
        Event::Negotiated { .. } => event.line(),
        Event::Path { path, status, .. } => "  ".to_owned().concat(
            pad(status.word(), 10).as_str(),
        ).concat(" ").concat(path.as_str()),
        Event::Done(_) => size.to_owned().concat(" to upload (uncompressed)"),
    }
}

/// `e` tells this of `p`.
pub open spec fn tells(e: Event, p: PathInfo, s: Status) -> bool {
    e matches Event::Path { path, status, nar_size, error } && path@ == p.path@ && status == s
        && nar_size == p.nar_size && error is None
}

fn tell(p: &PathInfo, status: Status) -> (r: Event)
    ensures
        tells(r, *p, status),
{
    Event::Path { path: p.path.clone(), status, nar_size: p.nar_size, error: None }
}

/// What is told once the negotiation is over: its result, and each path that
/// others serve.
pub fn start(closure: usize, upstream: &Vec<PathInfo>, missing: &Vec<PathInfo>) -> (r: Vec<Event>)
    requires
        nar_total(missing@) <= u64::MAX,
    ensures
        r@.len() == upstream@.len() + 1,
        r@[0] == (Event::Negotiated {
            closure,
            upstream: upstream@.len() as usize,
            missing: missing@.len() as usize,
            nar_bytes: nar_total(missing@) as u64,
        }),
        forall|i: int|
            0 <= i < upstream@.len() ==> tells(
                #[trigger] r@[i + 1],
                upstream@[i],
                Status::Upstream,
            ),
{
    let mut out: Vec<Event> = Vec::new();
    let first = Event::Negotiated {
        closure,
        upstream: upstream.len(),
        missing: missing.len(),
        nar_bytes: nar_bytes(missing),
    };
    out.push(first);
    let mut i: usize = 0;
    while i < upstream.len()
        invariant
            i <= upstream@.len(),
            out@.len() == i + 1,
            out@[0] == first,
            forall|k: int| 0 <= k < i ==> tells(
                #[trigger] out@[k + 1],
                upstream@[k],
                Status::Upstream,
            ),
        decreases upstream@.len() - i,
    {
        out.push(tell(&upstream[i], Status::Upstream));
        i += 1;
    }
    out
}

/// What is told where nothing is to be uploaded: the same as otherwise, with
/// what would be in place of what was.
pub fn dry_run(closure: usize, upstream: &Vec<PathInfo>, missing: &Vec<PathInfo>) -> (r: Vec<Event>)
    requires
        nar_total(missing@) <= u64::MAX,
    ensures
        r@.len() == upstream@.len() + missing@.len() + 2,
        r@[0] == (Event::Negotiated {
            closure,
            upstream: upstream@.len() as usize,
            missing: missing@.len() as usize,
            nar_bytes: nar_total(missing@) as u64,
        }),
        forall|i: int|
            0 <= i < upstream@.len() ==> tells(
                #[trigger] r@[i + 1],
                upstream@[i],
                Status::Upstream,
            ),
        forall|i: int|
            0 <= i < missing@.len() ==> tells(
                #[trigger] r@[upstream@.len() + 1 + i],
                missing@[i],
                Status::WouldPush,
            ),
        r@.last() == Event::Done(
            Summary { pushed: 0, deduped: 0, failed: 0, nar_bytes: nar_total(missing@) as u64 },
        ),
{
    let mut out = start(closure, upstream, missing);
    let ghost head = out@;
    let mut i: usize = 0;
    while i < missing.len()
        invariant
            i <= missing@.len(),
            head.len() == upstream@.len() + 1,
            out@.len() == head.len() + i,
            out@.take(head.len() as int) == head,
            forall|k: int|
                0 <= k < i ==> tells(
                    #[trigger] out@[upstream@.len() + 1 + k],
                    missing@[k],
                    Status::WouldPush,
                ),
        decreases missing@.len() - i,
    {
        let ghost prior = out@;
        out.push(tell(&missing[i], Status::WouldPush));
        assert(out@.take(head.len() as int) =~= prior.take(head.len() as int));
        i += 1;
    }
    let done = Event::Done(
        Summary { pushed: 0, deduped: 0, failed: 0, nar_bytes: nar_bytes(missing) },
    );
    let ghost prior = out@;
    out.push(done);
    proof {
        assert(out@[0] == prior.take(head.len() as int)[0]);
        assert forall|i: int| 0 <= i < upstream@.len() implies tells(
            #[trigger] out@[i + 1],
            upstream@[i],
            Status::Upstream,
        ) by {
            assert(out@[i + 1] == prior.take(head.len() as int)[i + 1]);
        }
    }
    out
}

/// Milliseconds for which an upload may make no progress.
pub const UPLOAD_IDLE_MS: u64 = 300000;

/// Whether an upload that last made progress at `last_ms` has stalled.
pub fn is_stalled(last_ms: u64, idle_ms: u64, now_ms: u64) -> (r: bool)
    ensures
        r == (last_ms + idle_ms <= now_ms),
{
    last_ms as u128 + idle_ms as u128 <= now_ms as u128
}

/// The signature is by the key of this name: the name stands in front of its
/// colon, or is all of it.
pub open spec fn is_by(sig: Seq<char>, key: Seq<char>) -> bool {
    sig == key || (key + seq![':']).is_prefix_of(sig)
}

proof fn names_of_keys(sig: Seq<char>, key: Seq<char>)
    requires
        !key.contains(':'),
    ensures
        key_name(sig) == key <==> is_by(sig, key),
{
    first_of_finds(sig, ':');
    let n = first_of(sig, ':');
    let front = key + seq![':'];
    if sig == key {
        if n < sig.len() {
            assert(key.contains(sig[n]));
        }
    } else if front.is_prefix_of(sig) {
        let m = key.len() as int;
        assert forall|k: int| 0 <= k < m implies sig[k] != ':' by {
            assert(sig.subrange(0, front.len() as int)[k] == front[k]);
            assert(key.contains(key[k]));
        }
        assert(sig.subrange(0, front.len() as int)[m] == front[m]);
        assert(sig[m] == ':');
        first_of_is(sig, ':', m);
        assert(sig.take(m) =~= key);
    }
    if key_name(sig) == key && sig != key {
        assert(sig.take(n) == key);
        assert(front =~= sig.subrange(0, front.len() as int));
    }
}

/// A path counts as served upstream if, and only if, one of its signatures is by
/// a key whose name is listed, whichever of them that is.
pub proof fn upstream_is_told_by_key_names(
    signatures: Seq<Seq<char>>,
    keys: Seq<Seq<char>>,
    i: int,
    j: int,
)
    requires
        forall|k: int| 0 <= k < keys.len() ==> !(#[trigger] keys[k]).contains(':'),
    ensures
        0 <= i < signatures.len() && 0 <= j < keys.len() && is_by(signatures[i], keys[j])
            ==> is_upstream(signatures, keys),
        is_upstream(signatures, keys) ==> exists|a: int, b: int|
            0 <= a < signatures.len() && 0 <= b < keys.len() && is_by(
                #[trigger] signatures[a],
                #[trigger] keys[b],
            ),
{
    if 0 <= i < signatures.len() && 0 <= j < keys.len() && is_by(signatures[i], keys[j]) {
        names_of_keys(signatures[i], keys[j]);
        assert(keys.contains(key_name(signatures[i])));
    }
    if is_upstream(signatures, keys) {
        let a = choose|a: int|
            0 <= a < signatures.len() && keys.contains(key_name(#[trigger] signatures[a]));
        let b = keys.index_of(key_name(signatures[a]));
        names_of_keys(signatures[a], keys[b]);
        assert(is_by(signatures[a], keys[b]));
    }
}

/// The hash of a store path is the 32 characters behind its last slash.
pub proof fn hashes_stand_behind_the_slash(dir: Seq<char>, hash: Seq<char>, rest: Seq<char>)
    requires
        hash.len() == 32,
        is_ascii_chars(hash),
        is_ascii_chars(rest),
        !hash.contains('/'),
        !rest.contains('/'),
    ensures
        path_hash(dir + seq!['/'] + hash + rest) == hash,
{
    let base = hash + rest;
    let path = dir + seq!['/'] + hash + rest;
    assert(path =~= dir + seq!['/'] + base);
    assert forall|k: int| 0 <= k < base.len() implies base[k] != '/' by {
        if k < hash.len() {
            assert(hash.contains(base[k]));
        } else {
            assert(rest[k - hash.len()] == base[k]);
            assert(rest.contains(base[k]));
        }
    }
    behind_the_last(dir, base, '/');
    hashes_stand_in_front(hash, rest);
}

proof fn behind_the_last(dir: Seq<char>, base: Seq<char>, c: char)
    requires
        forall|k: int| 0 <= k < base.len() ==> base[k] != c,
    ensures
        after_last(dir + seq![c] + base, c) == base,
    decreases base.len(),
{
    let s = dir + seq![c] + base;
    if base.len() > 0 {
        let front = base.drop_last();
        assert forall|k: int| 0 <= k < front.len() implies front[k] != c by {
            assert(front[k] == base[k]);
        }
        behind_the_last(dir, front, c);
        assert(s.drop_last() =~= dir + seq![c] + front);
        assert(front.push(base.last()) =~= base);
    } else {
        assert(base =~= Seq::<char>::empty());
        assert(s.last() == c);
    }
}

/// What the link of a chain says of the connection.
pub open spec fn says_dropped(cause: Cause) -> bool {
    match cause {
        Cause::Io(kind) => kind != IoKind::Other,
        Cause::Shown(text) => occurs(text@, "connection closed before message completed"@),
    }
}

/// A connection was dropped if some cause says so that no I/O error stands in
/// front of; an I/O error that says otherwise ends the search.
pub proof fn drops_are_found_down_to_the_first_io_error(causes: Seq<Cause>, i: int)
    ensures
        0 <= i < causes.len() && says_dropped(causes[i]) && (forall|k: int|
            0 <= k < i ==> (#[trigger] causes[k]) is Shown) ==> dropped(causes),
        dropped(causes) ==> exists|j: int| 0 <= j < causes.len() && says_dropped(#[trigger] causes[j]),
        causes.len() > 0 && causes[0] is Io ==> dropped(causes) == says_dropped(causes[0]),
    decreases causes.len(),
{
    if causes.len() > 0 {
        let rest = causes.skip(1);
        drops_are_found_down_to_the_first_io_error(rest, i - 1);
        if 0 < i < causes.len() && (forall|k: int| 0 <= k < i ==> (#[trigger] causes[k]) is Shown) {
            assert(rest[i - 1] == causes[i]);
            assert(causes[0] is Shown);
            assert forall|k: int| 0 <= k < i - 1 implies (#[trigger] rest[k]) is Shown by {
                assert(causes[k + 1] is Shown);
            }
        }
        if causes[0] is Shown && dropped(rest) {
            let j = choose|j: int| 0 <= j < rest.len() && says_dropped(#[trigger] rest[j]);
            assert(says_dropped(causes[j + 1]));
        }
        if dropped(causes) && !dropped(rest) {
            assert(says_dropped(causes[0]));
        }
    }
}

/// What stalls or loses its connection is tried again, a failure of another kind
/// is not.
pub proof fn lost_connections_are_retryable(
    doing: String,
    timed_out: bool,
    connect: bool,
    causes: Vec<Cause>,
    secs: u64,
    status: u16,
    message: String,
)
    ensures
        UploadError::Stalled.retryable(),
        (UploadError::Connection { doing, timed_out: true, connect, causes }).retryable(),
        (UploadError::Connection { doing, timed_out, connect: true, causes }).retryable(),
        (UploadError::Connection { doing, timed_out: false, connect: false, causes }).retryable()
            <==> dropped(causes@),
        !UploadError::Shed(secs).retryable(),
        !UploadError::Other(message).retryable(),
        (UploadError::Rejected { status, body: message }).retryable() <==> status / 100 == 5,
{
}

/// A server that asks for a number of seconds gets them, from one second up to a
/// quarter of an hour; one that asks for nothing that can be read gets one.
pub proof fn servers_get_the_time_they_ask_for(n: u64)
    ensures
        shed_secs(Some(decimal(n as nat))) == if n == 0 {
            1
        } else if n <= 900 {
            n as int
        } else {
            900
        },
        shed_secs(None) == 1,
        shed_secs(Some(Seq::empty())) == 1,
{
    let d = decimal(n as nat);
    decimal_reads_back(n as nat);
    assert(is_digit(d[0]));
    assert(is_digit(d[d.len() - 1]));
    assert(trim_front(d) == d);
    assert(trim_back(d) == d);
    assert(trimmed(Seq::<char>::empty()) == Seq::<char>::empty());
}

/// A failure that another try may help is waited out with the delay that is due
/// and jitter below it, and doubles the delay, as long as tries are left. Being
/// turned away is waited out as long as asked for, with jitter below that, while
/// a quarter of an hour lasts, and starts the delays anew. Anything else ends it.
pub proof fn waits_grow_and_end(
    before: Backoff,
    after: Backoff,
    error: UploadError,
    now_ms: u64,
    micros: u64,
    next: Next,
)
    requires
        backed_off(before, after, error, now_ms, micros, next),
        0 < before.delay_ms < u64::MAX / 4,
        before.started_ms <= now_ms <= u64::MAX / 2,
        error matches UploadError::Shed(secs) ==> 1 <= secs <= 900,
    ensures
        after.started_ms == before.started_ms,
        after.max_retries == before.max_retries,
        error is Shed ==> after.retries == 0 && after.delay_ms == 250,
        error matches UploadError::Shed(secs) ==> {
            let wait = secs * 1000 + micros as int % (secs * 1000);
            if now_ms - before.started_ms + wait <= 900000 {
                next == Next::Wait(wait as u64)
            } else {
                next == Next::GiveUp
            }
        },
        !(error is Shed) && before.retries < before.max_retries && error.retryable() ==> {
            &&& next == Next::Wait(
                (before.delay_ms + micros as int % (before.delay_ms as int)) as u64,
            )
            &&& after.retries == before.retries + 1
            &&& after.delay_ms == 2 * before.delay_ms
        },
        !(error is Shed) && (before.retries >= before.max_retries || !error.retryable()) ==> next
            == Next::GiveUp && after == before,
{
}

/// Each path is counted under what became of it, and its bytes once.
pub proof fn paths_are_counted_once(
    statuses: Seq<Status>,
    s: Status,
    t: Status,
    paths: Seq<PathInfo>,
    p: PathInfo,
)
    ensures
        count(Seq::empty(), s) == 0,
        count(statuses.push(t), s) == count(statuses, s) + if s == t {
            1int
        } else {
            0int
        },
        nar_total(Seq::empty()) == 0,
        p.nar_size >= 0 ==> nar_total(paths.push(p)) == nar_total(paths) + p.nar_size,
{
    assert(statuses.push(t).drop_last() =~= statuses);
    assert(paths.push(p).drop_last() =~= paths);
}

/// A text is filled up with blanks behind it, and never cut.
pub proof fn padding_fills_up_with_blanks(s: Seq<char>, n: nat)
    ensures
        padded(s, n).len() == if s.len() >= n {
            s.len()
        } else {
            n
        },
        s.is_prefix_of(padded(s, n)),
        forall|k: int| s.len() <= k < padded(s, n).len() ==> padded(s, n)[k] == ' ',
    decreases n - s.len(),
{
    if s.len() >= n {
        assert(s.is_prefix_of(s));
    } else {
        let t = s.push(' ');
        padding_fills_up_with_blanks(t, n);
        let p = padded(s, n);
        assert(t =~= p.subrange(0, t.len() as int));
        assert(s =~= p.subrange(0, s.len() as int)) by {
            assert forall|k: int| 0 <= k < s.len() implies s[k] == p[k] by {
                assert(t[k] == p.subrange(0, t.len() as int)[k]);
            }
        }
        assert(p[s.len() as int] == ' ') by {
            assert(t[s.len() as int] == p.subrange(0, t.len() as int)[s.len() as int]);
        }
    }
}

/// The negotiation is told in numbers: how many paths the closure has, how many
/// of them are missing and, where there are any, how many others serve.
pub proof fn negotiations_are_told_in_numbers(closure: nat, upstream: nat, missing: nat)
    requires
        upstream > 0,
    ensures
        negotiated_text(closure as int, 0, missing as int) == decimal(closure)
            + " path(s) in closure, "@ + decimal(missing) + " missing"@,
        negotiated_text(closure as int, upstream as int, missing as int) == decimal(closure)
            + " path(s) in closure, "@ + decimal(upstream) + " served upstream, "@ + decimal(missing)
            + " missing"@,
{
}

/// What is told of a path is its own path and size, and what became of it.
pub proof fn events_tell_of_their_path(e: Event, p: PathInfo, s: Status)
    requires
        tells(e, p, s),
    ensures
        e is Path,
        e->path@ == p.path@,
        e->Path_status == s,
        e->Path_nar_size == p.nar_size,
        e->error is None,
{
}

/// A header that is no number asks for a second, and white space around a number
/// does not matter.
pub proof fn unreadable_waits_are_a_second(
    v: Seq<char>,
    front: Seq<char>,
    n: u64,
    back: Seq<char>,
    k: int,
)
    requires
        forall|k: int| 0 <= k < front.len() ==> white(#[trigger] front[k]),
        forall|k: int| 0 <= k < back.len() ==> white(#[trigger] back[k]),
    ensures
        1 <= k < trimmed(v).len() && !('0' <= trimmed(v)[k] <= '9') ==> shed_secs(Some(v)) == 1,
        trimmed(v).len() == 0 ==> shed_secs(Some(v)) == 1,
        shed_secs(Some(front + decimal(n as nat) + back)) == shed_secs(Some(decimal(n as nat))),
        1 <= shed_secs(Some(v)) <= 900,
{
    only_numbers_are_read(n as nat, u64::MAX as int, trimmed(v), k);
    let d = decimal(n as nat);
    decimal_reads_back(n as nat);
    assert(is_digit(d[0]));
    assert(is_digit(d[d.len() - 1]));
    only_white_ends_are_cut(front, d, back);
    let none = Seq::<char>::empty();
    only_white_ends_are_cut(none, d, none);
    assert(none + d + none =~= d);
    if trimmed(v).len() == 0 {
        assert(trimmed(v) =~= none);
    }
}

/// What the store knows of a path is seen with the fields that it has.
pub proof fn infos_are_seen_as_they_are(info: PathInfo, i: int)
    ensures
        info@.path == info.path@,
        info@.nar_hash == info.nar_hash@,
        info@.nar_size == info.nar_size,
        info@.references.len() == info.references@.len(),
        0 <= i < info.references@.len() ==> info@.references[i] == info.references@[i]@,
        info@.signatures.len() == info.signatures@.len(),
        0 <= i < info.signatures@.len() ==> info@.signatures[i] == info.signatures@[i]@,
        info.deriver is None ==> info@.deriver is None,
        info.deriver is Some ==> info@.deriver == Some(info.deriver->0@),
        info.ca is None ==> info@.ca is None,
        info.ca is Some ==> info@.ca == Some(info.ca->0@),
{
}

} // verus!
