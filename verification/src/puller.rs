//! The serving service: it answers with narinfos, which hold the signatures,
//! and sends clients on to the blobs. Whatever goes wrong on the way counts as
//! a miss, which every client can handle.

use vstd::prelude::*;
use vstd::string::*;

use crate::db::{bump_last_accessed, bumped, sum_sizes, Db, Object};
use crate::narinfo::{narinfo_text, render};
use crate::number::{decimal, show};
use crate::storage::{blob_key, key_for};
use crate::table::Table;
use crate::text::{before_suffix, opt_text, strip_suffix, texts};

verus! {

/// Milliseconds for which the answer of a deep check is used again.
pub const READ_PROBE_TTL_MS: u64 = 30000;

/// How deep a dependency tree is followed.
pub const TREE_DEPTH: usize = 64;

/// What a step that has a deadline came to.
pub enum Timed<T> {
    /// It took too long.
    TimedOut,
    /// It failed.
    Failed,
    /// Its result.
    Done(T),
}

/// Why a request is answered as a miss although the path may be there.
#[derive(Debug, Clone, Copy, PartialEq, Eq, Structural)]
pub enum Degraded {
    /// The lookup took too long.
    DbTimeout,
    /// The lookup failed.
    DbError,
    /// Making a link took too long.
    PresignTimeout,
    /// Making a link failed.
    PresignError,
}

impl Degraded {
    /// The label of the metric.
    pub fn label(self) -> (r: &'static str)
        ensures
            r@ == match self {
                Degraded::DbTimeout => "db_timeout"@,
                Degraded::DbError => "db_error"@,
                Degraded::PresignTimeout => "presign_timeout"@,
                Degraded::PresignError => "presign_error"@,
            },
    {
        match self {
            Degraded::DbTimeout => "db_timeout",
            Degraded::DbError => "db_error",
            Degraded::PresignTimeout => "presign_timeout",
            Degraded::PresignError => "presign_error",
        }
    }
}

/// How a request for a path is answered.
pub enum PullAnswer {
    /// There is no such path.
    NotFound,
    /// The catalogue is not there yet.
    Unavailable,
    /// A miss, because something did not work in time.
    Miss(Degraded),
    /// The narinfo.
    Narinfo(String),
    /// The blob is at this URL.
    Redirect(String),
}

impl PullAnswer {
    /// The HTTP status. Only a catalogue that was never there is an error:
    /// everything that goes wrong later is a miss.
    pub fn status(&self) -> (r: u16)
        ensures
            r == match self {
                PullAnswer::NotFound | PullAnswer::Miss(_) => 404u16,
                PullAnswer::Unavailable => 503u16,
                PullAnswer::Narinfo(_) => 200u16,
                PullAnswer::Redirect(_) => 302u16,
            },
    {
        match self {
            PullAnswer::NotFound | PullAnswer::Miss(_) => 404,
            PullAnswer::Unavailable => 503,
            PullAnswer::Narinfo(_) => 200,
            PullAnswer::Redirect(_) => 302,
        }
    }
}

/// The hash in the name of a requested file, or how the request is answered
/// without a lookup.
pub open spec fn requested(
    file: Seq<char>,
    suffix: Seq<char>,
    ready: bool,
    r: Result<String, PullAnswer>,
) -> bool {
    match r {
        Ok(hash) => ready && before_suffix(file, suffix) == Some(hash@),
        Err(PullAnswer::NotFound) => before_suffix(file, suffix) is None,
        Err(PullAnswer::Unavailable) => before_suffix(file, suffix) is Some && !ready,
        Err(_) => false,
    }
}

fn request(file: &str, suffix: &str, ready: bool) -> (r: Result<String, PullAnswer>)
    ensures
        requested(file@, suffix@, ready, r),
{
    match strip_suffix(file, suffix) {
        None => Err(PullAnswer::NotFound),
        Some(hash) => if ready {
            Ok(hash.to_owned())
        } else {
            Err(PullAnswer::Unavailable)
        },
    }
}

/// Which hash to look up for a requested narinfo.
pub fn narinfo_request(file: &str, ready: bool) -> (r: Result<String, PullAnswer>)
    ensures
        requested(file@, ".narinfo"@, ready, r),
{
    request(file, ".narinfo", ready)
}

/// Which hash to look up for a requested blob.
pub fn nar_request(file: &str, ready: bool) -> (r: Result<String, PullAnswer>)
    ensures
        requested(file@, ".nar.zst"@, ready, r),
{
    request(file, ".nar.zst", ready)
}

/// Accesses that wait to be recorded: a burst of hits on one path is one
/// write.
pub struct Bumps {
    /// The hashes.
    pub pending: Table<String>,
}

/// An access at `now` need not be recorded: the last one is recent.
pub open spec fn is_recent(last_accessed_at: i64, now: i64, debounce: i64) -> bool {
    last_accessed_at >= now - debounce
}

impl Bumps {
    /// The hashes are in order and each stands under itself.
    pub open spec fn wf(self) -> bool {
        &&& self.pending.wf()
        &&& forall|h: Seq<char>| #[trigger]
            self.pending@.dom().contains(h) ==> self.pending@[h] == h
    }

    /// The hashes that wait.
    pub open spec fn waiting(self) -> Set<Seq<char>> {
        self.pending@.dom()
    }

    /// Nothing waits.
    pub fn new() -> (r: Self)
        ensures
            r.wf(),
            r.waiting() == Set::<Seq<char>>::empty(),
    {
        let r = Bumps { pending: Table::new() };
        assert(r.waiting() =~= Set::<Seq<char>>::empty());
        r
    }

    /// A path was accessed. A path with a recent access, which is nearly every
    /// one, costs no write at all. `true` means that the access waits to be
    /// recorded.
    pub fn hit(&mut self, hash: &str, last_accessed_at: i64, now: i64, debounce: i64) -> (r: bool)
        requires
            old(self).wf(),
        ensures
            final(self).wf(),
            r == !is_recent(last_accessed_at, now, debounce),
            r ==> final(self).waiting() == old(self).waiting().insert(hash@),
            !r ==> *final(self) == *old(self),
    {
        if last_accessed_at as i128 >= now as i128 - debounce as i128 {
            return false;
        }
        if !self.pending.has(hash) {
            self.pending.put(hash.to_owned());
        }
        assert(self.waiting() =~= old(self).waiting().insert(hash@));
        true
    }

    /// Hands out what waits, in order, and forgets it. A batch that then cannot
    /// be written is lost, which costs nothing: its paths are still stale, and
    /// wait again at their next hit.
    pub fn take(&mut self) -> (r: Vec<String>)
        requires
            old(self).wf(),
        ensures
            final(self).wf(),
            final(self).waiting() == Set::<Seq<char>>::empty(),
            texts(r@).to_set() == old(self).waiting(),
            texts(r@).no_duplicates(),
    {
        let mut table: Table<String> = Table::new();
        std::mem::swap(&mut table, &mut self.pending);
        let batch = table.rows;
        proof {
            assert(self.waiting() =~= Set::<Seq<char>>::empty());
            let all = texts(batch@);
            assert forall|i: int, j: int|
                0 <= i < all.len() && 0 <= j < all.len() && i != j implies all[i] != all[j] by {
                let (x, y) = if i < j { (i, j) } else { (j, i) };
                assert(crate::text::text_lt(batch@[x]@, batch@[y]@));
                crate::text::text_lt_irreflexive(batch@[x]@);
            }
            assert forall|h: Seq<char>| all.contains(h) <==> old(self).waiting().contains(h) by {
                if all.contains(h) {
                    let k = choose|k: int| 0 <= k < all.len() && all[k] == h;
                    crate::table::row_under_its_key(batch@, k);
                }
                if old(self).waiting().contains(h) {
                    let k = crate::table::key_index(batch@, h);
                    crate::table::row_under_its_key(batch@, k);
                    assert(all[k] == h);
                }
            }
            assert(all.to_set() =~= old(self).waiting());
        }
        batch
    }

    /// Records what waits, and says how much that was.
    pub fn flush(&mut self, db: &mut Db, now: i64, debounce: i64) -> (r: usize)
        requires
            old(self).wf(),
            old(db).wf(),
        ensures
            final(self).wf(),
            final(self).waiting() == Set::<Seq<char>>::empty(),
            final(db).wf(),
            final(db)@.pins == old(db)@.pins,
            final(db).total_bytes == old(db).total_bytes,
            sum_sizes(final(db).objects.rows@) == sum_sizes(old(db).objects.rows@),
            exists|batch: Seq<Seq<char>>|
                #![trigger batch.to_set()]
                {
                    &&& batch.no_duplicates()
                    &&& batch.to_set() == old(self).waiting()
                    &&& r == batch.len()
                    &&& final(db)@.objects == bumped(old(db)@.objects, batch, now, debounce)
                },
    {
        let batch = self.take();
        let n: usize = batch.len();
        bump_last_accessed(db, &batch, now, debounce);
        assert(texts(batch@).to_set() == old(self).waiting());
        n
    }
}

/// The answer to a request for a narinfo, once the lookup is over. A hit is
/// counted as an access of the path.
pub fn narinfo_answer(
    found: Timed<Option<(Object, i64)>>,
    bumps: &mut Bumps,
    hash: &str,
    now: i64,
    debounce: i64,
) -> (r: PullAnswer)
    requires
        old(bumps).wf(),
    ensures
        final(bumps).wf(),
        match found {
            Timed::TimedOut => r == PullAnswer::Miss(Degraded::DbTimeout) && *final(bumps) == *old(
                bumps,
            ),
            Timed::Failed => r == PullAnswer::Miss(Degraded::DbError) && *final(bumps) == *old(
                bumps,
            ),
            Timed::Done(None) => r == PullAnswer::NotFound && *final(bumps) == *old(bumps),
            Timed::Done(Some((obj, last))) => {
                &&& r matches PullAnswer::Narinfo(text) && text@ == narinfo_text(obj@)
                &&& if is_recent(last, now, debounce) {
                    *final(bumps) == *old(bumps)
                } else {
                    final(bumps).waiting() == old(bumps).waiting().insert(hash@)
                }
            },
        },
{
    match found {
        Timed::TimedOut => PullAnswer::Miss(Degraded::DbTimeout),
        Timed::Failed => PullAnswer::Miss(Degraded::DbError),
        Timed::Done(None) => PullAnswer::NotFound,
        Timed::Done(Some((obj, last))) => {
            let _ = bumps.hit(hash, last, now, debounce);
            PullAnswer::Narinfo(render(&obj))
        },
    }
}

/// The key to make a link to, once the lookup of a requested blob is over, or
/// the answer. Only a path with a row is linked to: where a row is, the blob
/// is.
pub fn nar_lookup(found: Timed<bool>, hash: &str) -> (r: Result<String, PullAnswer>)
    ensures
        match found {
            Timed::TimedOut => r == Err::<String, PullAnswer>(PullAnswer::Miss(Degraded::DbTimeout)),
            Timed::Failed => r == Err::<String, PullAnswer>(PullAnswer::Miss(Degraded::DbError)),
            Timed::Done(false) => r == Err::<String, PullAnswer>(PullAnswer::NotFound),
            Timed::Done(true) => r matches Ok(key) && key@ == blob_key(hash@),
        },
{
    match found {
        Timed::TimedOut => Err(PullAnswer::Miss(Degraded::DbTimeout)),
        Timed::Failed => Err(PullAnswer::Miss(Degraded::DbError)),
        Timed::Done(false) => Err(PullAnswer::NotFound),
        Timed::Done(true) => Ok(key_for(hash)),
    }
}

/// The answer to a request for a blob, once a link was made or not.
pub fn nar_answer(link: Timed<String>) -> (r: PullAnswer)
    ensures
        r == match link {
            Timed::TimedOut => PullAnswer::Miss(Degraded::PresignTimeout),
            Timed::Failed => PullAnswer::Miss(Degraded::PresignError),
            Timed::Done(url) => PullAnswer::Redirect(url),
        },
{
    match link {
        Timed::TimedOut => PullAnswer::Miss(Degraded::PresignTimeout),
        Timed::Failed => PullAnswer::Miss(Degraded::PresignError),
        Timed::Done(url) => PullAnswer::Redirect(url),
    }
}

/// The description of the cache that Nix asks for first.
pub fn nix_cache_info(store_dir: &str) -> (r: String)
    ensures
        r@ == "StoreDir: "@ + store_dir@ + "\nWantMassQuery: 1\nPriority: 40\n"@,
{
    "StoreDir: ".to_owned().concat(store_dir).concat("\nWantMassQuery: 1\nPriority: 40\n")
}

/// The answer of a deep check.
pub struct Probe {
    /// When it was taken, in milliseconds.
    pub at: u64,
    /// Why the check failed, if it did.
    pub failure: Option<String>,
}

/// The last answer of a deep check.
pub struct ProbeCache {
    /// The answer; `None` before the first check.
    pub last: Option<Probe>,
}

impl ProbeCache {
    /// No check was made yet.
    pub fn new() -> (r: Self)
        ensures
            r.last is None,
    {
        ProbeCache { last: None }
    }

    /// The last answer can be used again at `now`.
    pub open spec fn is_fresh(self, now: u64, ttl: u64) -> bool {
        self.last is Some && now - self.last->0.at < ttl
    }

    /// The last answer, if it can be used again.
    pub fn cached(&self, now: u64, ttl: u64) -> (r: Option<Result<(), String>>)
        ensures
            r is Some <==> self.is_fresh(now, ttl),
            r matches Some(answer) ==> match answer {
                Ok(_) => self.last->0.failure is None,
                Err(e) => opt_text(self.last->0.failure) == Some(e@),
            },
    {
        match &self.last {
            None => None,
            Some(probe) => if now as i128 - probe.at as i128 >= ttl as i128 {
                None
            } else {
                match &probe.failure {
                    None => Some(Ok(())),
                    Some(e) => Some(Err(e.clone())),
                }
            },
        }
    }

    /// Records the answer of a check.
    pub fn record(&mut self, at: u64, outcome: &Result<(), String>)
        ensures
            final(self).last is Some,
            final(self).last->0.at == at,
            match outcome {
                Ok(_) => final(self).last->0.failure is None,
                Err(e) => opt_text(final(self).last->0.failure) == Some(e@),
            },
    {
        let failure = match outcome {
            Ok(_) => None,
            Err(e) => Some(e.clone()),
        };
        self.last = Some(Probe { at, failure });
    }
}

/// Within the time for which an answer is used again, no second check is made:
/// what a check answered is what everyone is told.
pub proof fn probes_are_bounded(cache: ProbeCache, at: u64, now: u64, ttl: u64)
    requires
        cache.last is Some,
        cache.last->0.at == at,
        at <= now < at + ttl,
    ensures
        cache.is_fresh(now, ttl),
{
}

/// Which blob a deep check reads: that of the path accessed last. An empty
/// cache has nothing to read, and passes.
pub fn probe_target(found: Timed<Option<String>>, error: &str) -> (r: Result<Option<String>, String>)
    ensures
        match found {
            Timed::TimedOut => r matches Err(e) && e@ == "database read over budget"@,
            Timed::Failed => r matches Err(e) && e@ == error@,
            Timed::Done(None) => r matches Ok(None),
            Timed::Done(Some(hash)) => r matches Ok(Some(key)) && key@ == blob_key(hash@),
        },
{
    match found {
        Timed::TimedOut => Err("database read over budget".to_owned()),
        Timed::Failed => Err(error.to_owned()),
        Timed::Done(None) => Ok(None),
        Timed::Done(Some(hash)) => Ok(Some(key_for(hash.as_str()))),
    }
}

/// What the status of the read says.
pub fn probe_outcome(status: u16) -> (r: Result<(), String>)
    ensures
        match r {
            Ok(_) => 200 <= status <= 299,
            Err(e) => !(200 <= status <= 299) && e@ == "presigned GET answered "@ + decimal(
                status as nat,
            ),
        },
{
    if 200 <= status && status <= 299 {
        Ok(())
    } else {
        Err("presigned GET answered ".to_owned().concat(show(status as u64).as_str()))
    }
}

/// The status and text of the answer to a readiness check. `probe` is the
/// answer of the deep check, where one is asked for.
pub fn readiness(ready: bool, probe: Option<&Result<(), String>>) -> (r: (u16, String))
    ensures
        if !ready {
            r.0 == 503 && r.1@ == "database not ready"@
        } else {
            match probe {
                Some(Err(e)) => r.0 == 503 && r.1@ == "S3 read path failing: "@ + e@,
                _ => r.0 == 200 && r.1@ == "ready"@,
            }
        },
{
    if !ready {
        return (503, "database not ready".to_owned());
    }
    match probe {
        Some(Err(e)) => (503, "S3 read path failing: ".to_owned().concat(e.as_str())),
        _ => (200, "ready".to_owned()),
    }
}

/// The status of the answer to a browse request. Browsing is no part of what
/// Nix asks, so that its failures are told as such.
pub fn browse_status(read: Timed<bool>) -> (r: u16)
    ensures
        r == match read {
            Timed::TimedOut => 503u16,
            Timed::Failed => 500u16,
            Timed::Done(true) => 200u16,
            Timed::Done(false) => 404u16,
        },
{
    match read {
        Timed::TimedOut => 503,
        Timed::Failed => 500,
        Timed::Done(true) => 200,
        Timed::Done(false) => 404,
    }
}

/// How many objects a page lists where the request does not say.
pub fn default_limit() -> (r: usize)
    ensures
        r == 50,
{
    50
}

/// A request for a file of a hash is one for that hash while the service is
/// ready and is put off while it is not; any other file is not found.
pub proof fn requests_name_their_hash(
    file: Seq<char>,
    suffix: Seq<char>,
    hash: Seq<char>,
    ready: bool,
    r: Result<String, PullAnswer>,
)
    requires
        requested(file, suffix, ready, r),
    ensures
        file == hash + suffix && ready ==> r is Ok && r->Ok_0@ == hash,
        file == hash + suffix && !ready ==> r is Err && r->Err_0 is Unavailable,
        (forall|k: int| 0 <= k <= file.len() ==> #[trigger] file.skip(k) != suffix) ==> r is Err
            && r->Err_0 is NotFound,
{
    if file == hash + suffix {
        let n = hash.len() as int;
        assert(file.take(n) =~= hash);
        assert(file.subrange(0, n) =~= hash);
        assert(file.skip(n) =~= suffix);
        assert(file.subrange(n, file.len() as int) =~= suffix);
    }
    if before_suffix(file, suffix) is Some {
        let n = file.len() - suffix.len();
        assert(file.skip(n) =~= suffix);
    }
}

/// An access is recorded once the one on record lies back by more than the
/// debounce, and not before.
pub proof fn accesses_are_recorded_once_in_a_while(last: i64, now: i64, debounce: i64)
    ensures
        is_recent(last, now, debounce) <==> now - last <= debounce,
        is_recent(now, now, debounce) <==> debounce >= 0,
{
}

/// An answer is used until its time is over, and no longer.
pub proof fn answers_are_used_for_their_time(cache: ProbeCache, now: u64, ttl: u64)
    ensures
        cache.is_fresh(now, ttl) <==> cache.last is Some && now < cache.last->0.at + ttl,
{
}

} // verus!
