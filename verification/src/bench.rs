//! The load harness: the corpus that it pushes and pulls, how it retries, and
//! when a run has failed.

use vstd::prelude::*;
use vstd::string::*;

use crate::bench::corpus::{body_of, entries, has_seed, Entry, EntryView};
use crate::client::push::{show_status, status_text};
use crate::common::{framed, to_framed, Preamble};
use crate::number::{decimal, show};
use crate::order::{
    reordering_keeps_multiset, sort_positions, sorted_has_no_duplicates,
};
use crate::text::opt_text;

pub mod corpus;

verus! {

/// The metadata of an entry. Its NAR hash is made up.
pub fn preamble_for(entry: &Entry) -> (r: Preamble)
    requires
        entry.size <= i64::MAX,
    ensures
        r.store_path@ == "/nix/store/"@ + entry.hash@ + "-"@ + entry.name@,
        r.nar_hash@ == "sha256:0000000000000000000000000000000000000000000000000000"@,
        r.nar_size == entry.size,
        r.references@.len() == 0,
        r.deriver is None,
        r.ca is None,
{
    Preamble {
        store_path: entry.store_path(),
        nar_hash: "sha256:0000000000000000000000000000000000000000000000000000".to_owned(),
        nar_size: entry.size as i64,
        references: Vec::new(),
        deriver: None,
        ca: None,
    }
}

/// `bytes` as zstd compresses them at `level`, or why it cannot.
pub uninterp spec fn zstd_encoded(bytes: Seq<u8>, level: i32) -> Result<Seq<u8>, Seq<char>>;

/// What is told where compressing went wrong with `e`.
pub open spec fn not_compressed(e: Seq<char>) -> Seq<char> {
    "compressing: "@ + e
}

/// `zstd::encode_all`: the compressed bytes, or what went wrong. It reads and
/// writes nothing but memory, so that the bytes and the level decide; that the
/// machine has no memory left for the encoder is left aside.
#[verifier::external_body]
fn compress(bytes: &[u8], level: i32) -> (r: Result<Vec<u8>, String>)
    ensures
        match r {
            Ok(out) => zstd_encoded(bytes@, level) == Ok::<Seq<u8>, Seq<char>>(out@),
            Err(e) => zstd_encoded(bytes@, level) == Err::<Seq<u8>, Seq<char>>(e@),
        },
{
    zstd::encode_all(bytes, level).map_err(|e| e.to_string())
}

/// The body of an upload: the metadata, and behind it what was compressed.
pub fn assemble(json: &[u8], compressed: Result<Vec<u8>, String>) -> (r: Result<Vec<u8>, String>)
    requires
        json@.len() <= u32::MAX,
    ensures
        match compressed {
            Ok(c) => r matches Ok(out) && out@ == framed(json@) + c@,
            Err(e) => r matches Err(text) && text@ == not_compressed(e@),
        },
{
    match compressed {
        Ok(c) => {
            let mut out = to_framed(json);
            let ghost front = out@;
            let mut rest = c;
            let ghost back = rest@;
            out.append(&mut rest);
            assert(out@ =~= front + back);
            Ok(out)
        },
        Err(e) => Err("compressing: ".to_owned().concat(e.as_str())),
    }
}

/// The body of an upload of `entry`, whose metadata is `json`.
pub fn upload_body(json: &[u8], entry: &Entry, level: i32) -> (r: Result<Vec<u8>, String>)
    requires
        json@.len() <= u32::MAX,
        has_seed(entry.hash@),
    ensures
        match zstd_encoded(body_of(entry@), level) {
            Ok(c) => r matches Ok(out) && out@ == framed(json@) + c,
            Err(e) => r matches Err(text) && text@ == not_compressed(e),
        },
{
    let body = entry.body();
    assemble(json, compress(body.as_slice(), level))
}

/// What came of one try to upload.
pub enum Reply {
    /// The connection broke while the body was being sent. That is how an early
    /// answer can look.
    Dropped,
    /// The answer.
    Answer {
        /// Its status.
        status: u16,
        /// Its body.
        body: String,
    },
}

/// What to do next.
pub enum Step {
    /// The entry is there.
    Done,
    /// Wait so many milliseconds and try again.
    Wait {
        /// How long.
        ms: u64,
        /// The server shed the upload; else the connection broke.
        shed: bool,
    },
    /// It failed.
    Fail {
        /// What is reported.
        text: String,
    },
}

/// How many tries an upload has.
pub const ATTEMPTS: u64 = 6;

/// The wait behind each try but for its share of the number of the try: it
/// doubles.
pub open spec fn delay_before(attempt: nat) -> int
    decreases attempt,
{
    if attempt == 0 {
        100
    } else {
        2 * delay_before((attempt - 1) as nat)
    }
}

/// The tries of one upload.
pub struct Tries {
    attempt: u64,
    delay_ms: u64,
}

impl Tries {
    /// How many tries there were.
    pub closed spec fn made(self) -> int {
        self.attempt as int
    }

    /// No more tries were made than there are, and the wait is that of the next.
    pub closed spec fn wf(self) -> bool {
        self.attempt <= ATTEMPTS && self.delay_ms == delay_before(self.attempt as nat)
    }

    /// No try was made yet.
    pub fn new() -> (r: Self)
        ensures
            r.wf(),
            r.made() == 0,
    {
        Tries { attempt: 0, delay_ms: 100 }
    }

    /// What to do once a try has been replied to. What was shed or dropped is
    /// tried again, later each time.
    pub fn next(&mut self, reply: &Reply) -> (r: Step)
        requires
            old(self).wf(),
            old(self).made() < ATTEMPTS,
            *reply matches Reply::Answer { status, .. } ==> 100 <= status <= 999,
        ensures
            final(self).wf(),
            r is Wait <==> final(self).made() == old(self).made() + 1,
            r is Wait || final(self).made() == old(self).made(),
            match *reply {
                Reply::Dropped => r matches Step::Wait { ms, shed } && !shed && ms == delay_before(
                    old(self).made() as nat,
                ) + 17 * old(self).made(),
                Reply::Answer { status, body } => if status == 429 {
                    r matches Step::Wait { ms, shed } && shed && ms == delay_before(
                        old(self).made() as nat,
                    ) + 17 * old(self).made()
                } else if 200 <= status < 300 {
                    r is Done
                } else {
                    r matches Step::Fail { text } && text@ == status_text(status) + ": "@ + body@
                },
            },
    {
        let shed = match reply {
            Reply::Dropped => false,
            Reply::Answer { status, body } => {
                if *status != 429 {
                    if *status >= 200 && *status < 300 {
                        return Step::Done;
                    }
                    return Step::Fail {
                        text: show_status(*status).concat(": ").concat(body.as_str()),
                    };
                }
                true
            },
        };
        proof {
            reveal_with_fuel(delay_before, 7);
        }
        let ms: u64 = self.delay_ms + 17 * self.attempt;
        self.attempt = self.attempt + 1;
        self.delay_ms = self.delay_ms * 2;
        Step::Wait { ms, shed }
    }

    /// What is reported where no try is left.
    pub fn exhausted(&self) -> (r: Option<String>)
        requires
            self.wf(),
        ensures
            match r {
                Some(text) => self.made() == ATTEMPTS && text@
                    == "still shed or dropped after 6 attempts"@,
                None => self.made() < ATTEMPTS,
            },
    {
        if self.attempt == ATTEMPTS {
            Some("still shed or dropped after 6 attempts".to_owned())
        } else {
            None
        }
    }
}

/// The numbers of `v` in order.
pub open spec fn ordered(r: Seq<u64>, v: Seq<u64>) -> bool {
    &&& r.to_multiset() == v.to_multiset()
    &&& forall|i: int, j: int| 0 <= i < j < r.len() ==> r[i] <= r[j]
}

fn sort(v: &Vec<u64>) -> (r: Vec<u64>)
    ensures
        ordered(r@, v@),
{
    let order = sort_positions(v);
    proof {
        sorted_has_no_duplicates(v@, order@);
    }
    let mut out: Vec<u64> = Vec::new();
    let mut i: usize = 0;
    while i < order.len()
        invariant
            i <= order@.len(),
            out@.len() == i,
            order@.len() == v@.len(),
            forall|k: int| 0 <= k < order@.len() ==> (#[trigger] order@[k]) < v@.len(),
            forall|k: int| 0 <= k < i ==> #[trigger] out@[k] == v@[order@[k] as int],
        decreases order@.len() - i,
    {
        out.push(v[order[i]]);
        i += 1;
    }
    proof {
        reordering_keeps_multiset(v@, order@, out@);
        assert forall|a: int, b: int| 0 <= a < b < out@.len() implies out@[a] <= out@[b] by {
            assert(crate::order::before(v@, order@[a] as int, order@[b] as int));
        }
    }
    out
}

/// How long the pushes took that did not fail, and how many failed.
pub open spec fn times_of(latencies: Seq<(usize, Option<u64>)>) -> Seq<u64>
    decreases latencies.len(),
{
    if latencies.len() == 0 {
        Seq::empty()
    } else {
        let front = times_of(latencies.drop_last());
        match latencies.last().1 {
            Some(ms) => front.push(ms),
            None => front,
        }
    }
}

/// The times of the pushes that did not fail, in order, and how many failed.
pub fn times(latencies: &Vec<(usize, Option<u64>)>) -> (r: (Vec<u64>, usize))
    ensures
        ordered(r.0@, times_of(latencies@)),
        r.0@.len() + r.1 == latencies@.len(),
{
    let mut out: Vec<u64> = Vec::new();
    let mut failed: usize = 0;
    let mut i: usize = 0;
    assert(latencies@.take(0) =~= Seq::empty());
    while i < latencies.len()
        invariant
            i <= latencies@.len(),
            out@ == times_of(latencies@.take(i as int)),
            out@.len() + failed == i,
        decreases latencies@.len() - i,
    {
        assert(latencies@.take(i + 1).drop_last() =~= latencies@.take(i as int));
        match latencies[i].1 {
            Some(ms) => {
                out.push(ms);
            },
            None => {
                failed += 1;
            },
        }
        i += 1;
    }
    assert(latencies@.take(i as int) =~= latencies@);
    let sorted = sort(&out);
    proof {
        broadcast use vstd::seq_lib::group_to_multiset_ensures;

        assert(sorted@.len() == sorted@.to_multiset().len());
    }
    (sorted, failed)
}

/// Each time a thousandfold against the time of the same entry when nothing
/// else was going on, so that its size cancels out.
pub open spec fn slowdowns_of(latencies: Seq<(usize, Option<u64>)>, baseline: Seq<u64>) -> Seq<u64>
    decreases latencies.len(),
{
    if latencies.len() == 0 {
        Seq::empty()
    } else {
        let front = slowdowns_of(latencies.drop_last(), baseline);
        let (index, took) = latencies.last();
        match took {
            Some(ms) => if index < baseline.len() {
                front.push(
                    ((if ms == 0 {
                        1
                    } else {
                        ms as int
                    }) * 1000 / baseline[index as int] as int) as u64,
                )
            } else {
                front
            },
            None => front,
        }
    }
}

/// The slowdowns, in order.
pub fn slowdowns(latencies: &Vec<(usize, Option<u64>)>, baseline: &Vec<u64>) -> (r: Vec<u64>)
    requires
        forall|i: int| 0 <= i < baseline@.len() ==> #[trigger] baseline@[i] > 0,
        forall|i: int|
            0 <= i < latencies@.len() ==> ((#[trigger] latencies@[i]).1 matches Some(ms) ==> ms
                <= u64::MAX / 1000),
    ensures
        ordered(r@, slowdowns_of(latencies@, baseline@)),
{
    let mut out: Vec<u64> = Vec::new();
    let mut i: usize = 0;
    assert(latencies@.take(0) =~= Seq::empty());
    while i < latencies.len()
        invariant
            i <= latencies@.len(),
            forall|k: int| 0 <= k < baseline@.len() ==> #[trigger] baseline@[k] > 0,
            forall|k: int|
                0 <= k < latencies@.len() ==> ((#[trigger] latencies@[k]).1 matches Some(ms) ==> ms
                    <= u64::MAX / 1000),
            out@ == slowdowns_of(latencies@.take(i as int), baseline@),
        decreases latencies@.len() - i,
    {
        assert(latencies@.take(i + 1).drop_last() =~= latencies@.take(i as int));
        let (index, took) = latencies[i];
        if let Some(ms) = took {
            if index < baseline.len() {
                let floored: u64 = if ms == 0 {
                    1
                } else {
                    ms
                };
                let base: u64 = baseline[index];
                let scaled: u64 = floored * 1000;
                proof {
                    quotient_fits(scaled as int, base as int);
                }
                out.push(scaled / base);
            }
        }
        i += 1;
    }
    assert(latencies@.take(i as int) =~= latencies@);
    sort(&out)
}

proof fn quotient_fits(a: int, b: int)
    by (nonlinear_arith)
    requires
        0 <= a <= u64::MAX,
        b > 0,
    ensures
        0 <= a / b <= u64::MAX,
{
}

/// The sizes of the streamed pushes, each with how often it is pushed: the
/// largest, which may be left out, once.
pub fn stream_sizes(reps: usize, no_giant: bool) -> (r: Vec<(u64, usize)>)
    ensures
        r@ == if no_giant {
            seq![(1048576u64, reps), (104857600u64, reps)]
        } else {
            seq![(1048576u64, reps), (104857600u64, reps), (2147483648u64, 1usize)]
        },
{
    let mut out: Vec<(u64, usize)> = Vec::new();
    out.push((1048576, reps));
    out.push((104857600, reps));
    if !no_giant {
        out.push((2147483648, 1));
    }
    out
}

/// What is asked of the cache for one entry: its narinfo, and its NAR up to the
/// redirect.
pub open spec fn asks(endpoint: Seq<char>, hash: Seq<char>) -> Seq<(Seq<char>, bool)> {
    seq![
        (endpoint + "/"@ + hash + ".narinfo"@, false),
        (endpoint + "/nar/"@ + hash + ".nar.zst"@, true),
    ]
}

/// What is asked for each entry.
pub open spec fn pass_of(endpoint: Seq<char>, all: Seq<EntryView>) -> Seq<(Seq<char>, bool)>
    decreases all.len(),
{
    if all.len() == 0 {
        Seq::empty()
    } else {
        pass_of(endpoint, all.drop_last()) + asks(endpoint, all.last().hash)
    }
}

/// The same some times over.
pub open spec fn passes_of(endpoint: Seq<char>, all: Seq<EntryView>, passes: nat) -> Seq<
    (Seq<char>, bool),
>
    decreases passes,
{
    if passes == 0 {
        Seq::empty()
    } else {
        passes_of(endpoint, all, (passes - 1) as nat) + pass_of(endpoint, all)
    }
}

/// What a list of requests holds.
pub open spec fn requests_view(v: Seq<(String, bool)>) -> Seq<(Seq<char>, bool)> {
    v.map_values(|p: (String, bool)| (p.0@, p.1))
}

/// The requests of a pull run, each with whether it is for a NAR.
pub fn pull_requests(endpoint: &str, all: &Vec<Entry>, passes: usize) -> (r: Vec<(String, bool)>)
    ensures
        requests_view(r@) == passes_of(endpoint@, entries(all@), passes as nat),
{
    let mut out: Vec<(String, bool)> = Vec::new();
    let mut pass: usize = 0;
    assert(requests_view(out@) =~= Seq::empty());
    while pass < passes
        invariant
            pass <= passes,
            requests_view(out@) == passes_of(endpoint@, entries(all@), pass as nat),
        decreases passes - pass,
    {
        let ghost before = requests_view(out@);
        let mut i: usize = 0;
        assert(entries(all@).take(0) =~= Seq::<EntryView>::empty());
        assert(before + Seq::<(Seq<char>, bool)>::empty() =~= before);
        while i < all.len()
            invariant
                i <= all@.len(),
                requests_view(out@) == before + pass_of(endpoint@, entries(all@).take(i as int)),
            decreases all@.len() - i,
        {
            let ghost prior = requests_view(out@);
            let hash = all[i].hash.as_str();
            out.push(
                (endpoint.to_owned().concat("/").concat(hash).concat(".narinfo"), false),
            );
            out.push(
                (endpoint.to_owned().concat("/nar/").concat(hash).concat(".nar.zst"), true),
            );
            proof {
                let next = entries(all@).take(i + 1);
                assert(next.drop_last() =~= entries(all@).take(i as int));
                assert(next.last().hash == hash@);
                assert(requests_view(out@) =~= prior + asks(endpoint@, hash@));
                assert(requests_view(out@) =~= before + pass_of(endpoint@, next));
            }
            i += 1;
        }
        assert(entries(all@).take(i as int) =~= entries(all@));
        pass += 1;
    }
    out
}

/// Whether an answer to such a request is the wanted one: a redirect for a NAR,
/// and success for a narinfo.
pub fn is_wanted(is_nar: bool, status: u16) -> (r: bool)
    ensures
        r == if is_nar {
            300 <= status < 400
        } else {
            200 <= status < 300
        },
{
    if is_nar {
        status >= 300 && status < 400
    } else {
        status >= 200 && status < 300
    }
}

/// The times of the answers of one kind.
pub open spec fn kind_times(outcomes: Seq<(bool, Option<u64>)>, nar: bool) -> Seq<u64>
    decreases outcomes.len(),
{
    if outcomes.len() == 0 {
        Seq::empty()
    } else {
        let front = kind_times(outcomes.drop_last(), nar);
        match outcomes.last() {
            (kind, Some(micros)) if kind == nar => front.push(micros),
            _ => front,
        }
    }
}

/// How many requests had no wanted answer.
pub open spec fn count_failed(outcomes: Seq<(bool, Option<u64>)>) -> nat
    decreases outcomes.len(),
{
    if outcomes.len() == 0 {
        0
    } else {
        count_failed(outcomes.drop_last()) + if outcomes.last().1 is None {
            1nat
        } else {
            0
        }
    }
}

/// The times of the answers of one kind, in order.
pub fn collect(outcomes: &Vec<(bool, Option<u64>)>, nar: bool) -> (r: Vec<u64>)
    ensures
        ordered(r@, kind_times(outcomes@, nar)),
{
    let mut out: Vec<u64> = Vec::new();
    let mut i: usize = 0;
    assert(outcomes@.take(0) =~= Seq::empty());
    while i < outcomes.len()
        invariant
            i <= outcomes@.len(),
            out@ == kind_times(outcomes@.take(i as int), nar),
        decreases outcomes@.len() - i,
    {
        assert(outcomes@.take(i + 1).drop_last() =~= outcomes@.take(i as int));
        let (kind, took) = outcomes[i];
        if let Some(micros) = took {
            if kind == nar {
                out.push(micros);
            }
        }
        i += 1;
    }
    assert(outcomes@.take(i as int) =~= outcomes@);
    sort(&out)
}

/// How many requests had no wanted answer.
pub fn failures(outcomes: &Vec<(bool, Option<u64>)>) -> (r: usize)
    ensures
        r == count_failed(outcomes@),
{
    let mut failed: usize = 0;
    let mut i: usize = 0;
    assert(outcomes@.take(0) =~= Seq::empty());
    while i < outcomes.len()
        invariant
            i <= outcomes@.len(),
            failed <= i,
            failed == count_failed(outcomes@.take(i as int)),
        decreases outcomes@.len() - i,
    {
        assert(outcomes@.take(i + 1).drop_last() =~= outcomes@.take(i as int));
        let (_, took) = outcomes[i];
        if took.is_none() {
            failed += 1;
        }
        i += 1;
    }
    assert(outcomes@.take(i as int) =~= outcomes@);
    failed
}

/// Every request of a run is a narinfo that came, a redirect that came, or a
/// failure.
pub proof fn outcomes_are_all_counted(outcomes: Seq<(bool, Option<u64>)>)
    ensures
        kind_times(outcomes, false).len() + kind_times(outcomes, true).len() + count_failed(
            outcomes,
        ) == outcomes.len(),
    decreases outcomes.len(),
{
    if outcomes.len() > 0 {
        outcomes_are_all_counted(outcomes.drop_last());
    }
}

/// Why a run failed, if it did.
pub open spec fn gate_text(pushes: Option<u64>, streams: Seq<u64>, pulls: Option<u64>) -> Option<
    Seq<char>,
> {
    if pushes matches Some(failed) && failed > 0 {
        Some("FAIL: "@ + decimal(pushes->0 as nat) + " push(es) failed"@)
    } else if exists|i: int| 0 <= i < streams.len() && streams[i] > 0 {
        Some("FAIL: streaming push(es) failed"@)
    } else if pulls matches Some(failed) && failed > 0 {
        Some("FAIL: "@ + decimal(pulls->0 as nat) + " pull request(s) failed"@)
    } else {
        None
    }
}

/// Why a run failed, if it did: a push, a streamed push or a request that
/// failed. What was not run cannot fail, and no latency fails a run.
pub fn gate(pushes: Option<u64>, streams: &Vec<u64>, pulls: Option<u64>) -> (r: Option<String>)
    ensures
        opt_text(r) == gate_text(pushes, streams@, pulls),
{
    if let Some(failed) = pushes {
        if failed > 0 {
            return Some("FAIL: ".to_owned().concat(show(failed).as_str()).concat(" push(es) failed"));
        }
    }
    let mut i: usize = 0;
    while i < streams.len()
        invariant
            i <= streams@.len(),
            pushes matches Some(failed) ==> failed == 0,
            forall|k: int| 0 <= k < i ==> streams@[k] == 0,
        decreases streams@.len() - i,
    {
        if streams[i] > 0 {
            return Some("FAIL: streaming push(es) failed".to_owned());
        }
        i += 1;
    }
    if let Some(failed) = pulls {
        if failed > 0 {
            return Some(
                "FAIL: ".to_owned().concat(show(failed).as_str()).concat(
                    " pull request(s) failed",
                ),
            );
        }
    }
    None
}

/// The waits of an upload begin at a tenth of a second and double.
pub proof fn waits_double(attempt: nat)
    ensures
        delay_before(0) == 100,
        delay_before(attempt + 1) == delay_before(attempt) * 2,
{
}

/// Every push that did not fail is measured by its own time, and against the time
/// that its own entry took alone; failures are measured by neither.
pub proof fn pushes_are_measured(
    latencies: Seq<(usize, Option<u64>)>,
    index: usize,
    ms: u64,
    baseline: Seq<u64>,
)
    requires
        index < baseline.len(),
        baseline[index as int] > 0,
        ms <= u64::MAX / 1000,
    ensures
        times_of(latencies.push((index, Some(ms)))) == times_of(latencies).push(ms),
        times_of(latencies.push((index, None))) == times_of(latencies),
        slowdowns_of(latencies.push((index, None)), baseline) == slowdowns_of(latencies, baseline),
        slowdowns_of(latencies.push((index, Some(ms))), baseline).len() == slowdowns_of(
            latencies,
            baseline,
        ).len() + 1,
        ms > 0 ==> slowdowns_of(latencies.push((index, Some(ms))), baseline).last() == ms * 1000
            / baseline[index as int] as int,
{
    assert(latencies.push((index, Some(ms))).drop_last() =~= latencies);
    assert(latencies.push((index, None)).drop_last() =~= latencies);
    if ms > 0 {
        quotient_fits(ms * 1000, baseline[index as int] as int);
    }
}

/// Answers are measured with those of their kind, and what did not come is
/// counted as failed.
pub proof fn answers_are_measured_by_kind(
    outcomes: Seq<(bool, Option<u64>)>,
    kind: bool,
    micros: u64,
)
    ensures
        kind_times(outcomes.push((kind, Some(micros))), kind) == kind_times(outcomes, kind).push(
            micros,
        ),
        kind_times(outcomes.push((kind, Some(micros))), !kind) == kind_times(outcomes, !kind),
        kind_times(outcomes.push((kind, None)), kind) == kind_times(outcomes, kind),
        count_failed(outcomes.push((kind, Some(micros)))) == count_failed(outcomes),
        count_failed(outcomes.push((kind, None))) == count_failed(outcomes) + 1,
{
    assert(outcomes.push((kind, Some(micros))).drop_last() =~= outcomes);
    assert(outcomes.push((kind, None)).drop_last() =~= outcomes);
}

proof fn pass_asks_for_each(endpoint: Seq<char>, all: Seq<EntryView>, i: int)
    ensures
        pass_of(endpoint, all).len() == 2 * all.len(),
        0 <= i < all.len() ==> pass_of(endpoint, all)[2 * i] == (
            endpoint + "/"@ + all[i].hash + ".narinfo"@,
            false,
        ) && pass_of(endpoint, all)[2 * i + 1] == (
            endpoint + "/nar/"@ + all[i].hash + ".nar.zst"@,
            true,
        ),
    decreases all.len(),
{
    if all.len() > 0 {
        pass_asks_for_each(endpoint, all.drop_last(), i);
        let front = pass_of(endpoint, all.drop_last());
        let last = asks(endpoint, all.last().hash);
        let whole = pass_of(endpoint, all);
        assert(front.len() == 2 * (all.len() - 1));
        if 0 <= i < all.len() - 1 {
            assert(whole[2 * i] == front[2 * i]);
            assert(whole[2 * i + 1] == front[2 * i + 1]);
            assert(all.drop_last()[i] == all[i]);
        } else if i == all.len() - 1 {
            assert(whole[2 * i] == last[0]);
            assert(whole[2 * i + 1] == last[1]);
        }
    }
}

/// Each pass asks for the narinfo and the NAR of every entry, in their order.
pub proof fn passes_ask_for_everything(
    endpoint: Seq<char>,
    all: Seq<EntryView>,
    passes: nat,
    i: int,
)
    requires
        0 <= i < all.len(),
    ensures
        passes_of(endpoint, all, 0).len() == 0,
        passes_of(endpoint, all, passes + 1).len() == passes_of(endpoint, all, passes).len() + 2
            * all.len(),
        ({
            let at = passes_of(endpoint, all, passes).len() + 2 * i;
            let asked = passes_of(endpoint, all, passes + 1);
            &&& asked[at] == (endpoint + "/"@ + all[i].hash + ".narinfo"@, false)
            &&& asked[at + 1] == (endpoint + "/nar/"@ + all[i].hash + ".nar.zst"@, true)
        }),
{
    pass_asks_for_each(endpoint, all, i);
    let front = passes_of(endpoint, all, passes);
    let asked = passes_of(endpoint, all, passes + 1);
    assert(asked == front + pass_of(endpoint, all));
    assert(asked[front.len() + 2 * i] == pass_of(endpoint, all)[2 * i]);
    assert(asked[front.len() + 2 * i + 1] == pass_of(endpoint, all)[2 * i + 1]);
}

/// A run passes if, and only if, nothing that was run has failed.
pub proof fn runs_pass_where_nothing_failed(
    pushes: Option<u64>,
    streams: Seq<u64>,
    pulls: Option<u64>,
)
    ensures
        gate_text(pushes, streams, pulls) is None <==> {
            &&& pushes is None || pushes->0 == 0
            &&& forall|i: int| 0 <= i < streams.len() ==> #[trigger] streams[i] == 0
            &&& pulls is None || pulls->0 == 0
        },
{
    if exists|i: int| 0 <= i < streams.len() && streams[i] > 0 {
        let i = choose|i: int| 0 <= i < streams.len() && streams[i] > 0;
        assert(streams[i] != 0);
    }
}

/// Putting numbers in order loses none, adds none, and leaves none in front of a
/// smaller one.
pub proof fn ordering_keeps_the_numbers(r: Seq<u64>, v: Seq<u64>, x: u64, i: int)
    requires
        ordered(r, v),
    ensures
        r.len() == v.len(),
        r.contains(x) <==> v.contains(x),
        0 <= i && i + 1 < r.len() ==> r[i] <= r[i + 1],
{
    r.to_multiset_ensures();
    v.to_multiset_ensures();
    assert(r.to_multiset().count(x) == v.to_multiset().count(x));
}

/// A push that took no time that could be measured counts as one of a millisecond.
pub proof fn quick_pushes_count_as_a_millisecond(
    latencies: Seq<(usize, Option<u64>)>,
    index: usize,
    baseline: Seq<u64>,
)
    requires
        index < baseline.len(),
        baseline[index as int] > 0,
    ensures
        slowdowns_of(latencies.push((index, Some(0))), baseline) == slowdowns_of(
            latencies.push((index, Some(1))),
            baseline,
        ),
{
    assert(latencies.push((index, Some(0))).drop_last() =~= latencies);
    assert(latencies.push((index, Some(1))).drop_last() =~= latencies);
}

} // verus!
