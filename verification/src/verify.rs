//! Verification of an uploaded NAR against what its client claims. The
//! compressed NAR is decompressed and digested as it passes, never held whole
//! and never altered, so that one which does not match is refused before
//! anything is stored or signed.

use vstd::prelude::*;
use vstd::string::*;
use zstd::stream::raw::Operation;

use crate::digest::{absorb, absorbed, finish, sha256, start};
use crate::nix_base32::{base32, encode};
use crate::number::{decimal, decimal_int, show, show_signed};
use crate::text::{opt_text, same};

verus! {

/// A decompression in progress.
#[verifier::external_type_specification]
#[verifier::external_body]
pub struct ExDecoder<'a>(zstd::stream::raw::Decoder<'a>);

/// The logarithm of the widest window that is accepted: 8 MiB, which the
/// highest ordinary level uses. A decoder holds one window, so that this bounds
/// its memory.
pub const WINDOW_LOG_MAX: u32 = 23;

/// The logarithms that a decoder takes for a limit, on every machine.
pub const WINDOW_LOG_LOWEST: u32 = 10;

/// See [`WINDOW_LOG_LOWEST`].
pub const WINDOW_LOG_HIGHEST: u32 = 30;

/// How many decompressed bytes one step of the decoder gives at most.
pub const SCRATCH: usize = 131072;

/// How many steps of the decoder in a row may neither take nor give anything.
pub const MAX_IDLE: usize = 16;

/// The inputs that a decoder was stepped on so far.
pub uninterp spec fn stepped_on(decoder: zstd::stream::raw::Decoder<'static>) -> Seq<Seq<u8>>;

/// The logarithm of the widest window that a decoder accepts, where one was
/// set.
pub uninterp spec fn window_limit(decoder: zstd::stream::raw::Decoder<'static>) -> Option<u32>;

/// What one step gives of a decoder with a window limit that was stepped on
/// `before`: how much of `input` it took, what it gave, and a hint at what it
/// needs next, which is 0 at the end of a frame; or why it cannot go on.
pub uninterp spec fn zstd_step(
    limit: Option<u32>,
    before: Seq<Seq<u8>>,
    input: Seq<u8>,
) -> Result<(nat, Seq<u8>, nat), Seq<char>>;

/// `zstd::stream::raw::Decoder::new`: a decoder that was not stepped yet. Its
/// errors are those of starting a stream and of loading a dictionary. A fresh
/// context can always start a stream, and the empty dictionary that is loaded
/// here is none, so that neither fails.
#[verifier::external_body]
fn new_decoder() -> (r: Result<zstd::stream::raw::Decoder<'static>, String>)
    ensures
        r is Ok,
        stepped_on(r->Ok_0) == Seq::<Seq<u8>>::empty(),
        window_limit(r->Ok_0) is None,
{
    zstd::stream::raw::Decoder::new().map_err(|e| e.to_string())
}

/// `zstd::stream::raw::Decoder::set_parameter` with `WindowLogMax`: frames with
/// a wider window are refused from now on. A logarithm between the bounds of
/// the parameter is refused only in the middle of a stream, and this decoder
/// has begun none.
#[verifier::external_body]
fn limit_window(decoder: &mut zstd::stream::raw::Decoder<'static>, log: u32) -> (r: Result<
    (),
    String,
>)
    requires
        WINDOW_LOG_LOWEST <= log <= WINDOW_LOG_HIGHEST,
        stepped_on(*old(decoder)).len() == 0,
    ensures
        r is Ok,
        stepped_on(*final(decoder)) == stepped_on(*old(decoder)),
        window_limit(*final(decoder)) == Some(log),
{
    decoder.set_parameter(zstd::stream::raw::DParameter::WindowLogMax(log)).map_err(
        |e| e.to_string(),
    )
}

/// `zstd::stream::raw::Operation::run_on_buffers` with room for [`SCRATCH`]
/// bytes: one step. It takes some of the input and gives at most as much as
/// there is room for. That the machine has no memory left for a window is left
/// aside.
#[verifier::external_body]
fn step(decoder: &mut zstd::stream::raw::Decoder<'static>, input: &[u8]) -> (r: Result<
    (usize, Vec<u8>, usize),
    String,
>)
    ensures
        stepped_on(*final(decoder)) == stepped_on(*old(decoder)).push(input@),
        window_limit(*final(decoder)) == window_limit(*old(decoder)),
        match r {
            Ok(s) => zstd_step(
                window_limit(*old(decoder)),
                stepped_on(*old(decoder)),
                input@,
            ) == Ok::<(nat, Seq<u8>, nat), Seq<char>>((s.0 as nat, s.1@, s.2 as nat)) && s.0
                <= input@.len() && s.1@.len() <= SCRATCH,
            Err(e) => zstd_step(window_limit(*old(decoder)), stepped_on(*old(decoder)), input@)
                == Err::<(nat, Seq<u8>, nat), Seq<char>>(e@),
        },
{
    let mut out = vec![0u8; SCRATCH];
    let s = decoder.run_on_buffers(input, &mut out).map_err(|e| e.to_string())?;
    out.truncate(s.bytes_written);
    Ok((s.bytes_read, out, s.remaining))
}

/// How far the decompression of a NAR has come.
#[verifier::ext_equal]
pub struct NarView {
    /// The inputs that the decoder was stepped on.
    pub before: Seq<Seq<u8>>,
    /// What they decompress to.
    pub content: Seq<u8>,
    /// The last step that did something ended exactly at the end of a frame.
    pub frame_done: bool,
}

/// What is left of a size.
pub open spec fn left_of(claimed: int, len: int) -> int {
    if len <= claimed {
        claimed - len
    } else {
        0
    }
}

/// A NAR decompressed further by `input`, or why it is refused. A NAR is
/// refused as soon as it outgrows what is claimed of it. A step that did
/// nothing says nothing of where the frame stands.
pub open spec fn decompressed(nar: NarView, claimed: int, input: Seq<u8>, idle: nat) -> Result<
    NarView,
    Seq<char>,
>
    decreases input.len(), left_of(claimed, nar.content.len() as int), idle,
{
    match zstd_step(Some(WINDOW_LOG_MAX), nar.before, input) {
        Err(e) => Err("NAR is not a valid zstd stream: "@ + e),
        Ok((taken, given, hint)) => {
            let content = nar.content + given;
            let active = taken > 0 || given.len() > 0;
            let next = NarView {
                before: nar.before.push(input),
                content,
                frame_done: if active {
                    hint == 0
                } else {
                    nar.frame_done
                },
            };
            if content.len() > claimed {
                Err("NAR is larger than its claimed NarSize "@ + decimal_int(claimed))
            } else if taken == input.len() && given.len() < SCRATCH {
                Ok(next)
            } else if active && taken <= input.len() {
                decompressed(next, claimed, input.skip(taken as int), MAX_IDLE as nat)
            } else if idle == 0 {
                Err("NAR is not a valid zstd stream: no progress"@)
            } else {
                decompressed(next, claimed, input, (idle - 1) as nat)
            }
        },
    }
}

/// The hash of a NAR as it is claimed.
pub open spec fn nar_hash_text(content: Seq<u8>) -> Seq<char> {
    "sha256:"@ + base32(sha256(content))
}

/// Why a NAR that has ended is refused; `None` where it is what is claimed.
pub open spec fn refused_at_end(nar: NarView, claimed_hash: Seq<char>, claimed_size: int) -> Option<
    Seq<char>,
> {
    if !nar.frame_done {
        Some("NAR stream ended mid-frame"@)
    } else if nar.content.len() != claimed_size {
        Some(
            "NarSize is "@ + decimal(nar.content.len()) + ", not the claimed "@ + decimal_int(
                claimed_size,
            ),
        )
    } else if nar_hash_text(nar.content) != claimed_hash {
        Some("NarHash is "@ + nar_hash_text(nar.content) + ", not the claimed "@ + claimed_hash)
    } else {
        None
    }
}

/// One step of the decoder that did not fail.
pub struct DecoderStep {
    /// What it was given.
    pub input: Seq<u8>,
    /// How much of that it took.
    pub taken: nat,
    /// What it gave.
    pub given: Seq<u8>,
    /// Its hint, which is 0 at the end of a frame.
    pub hint: nat,
}

/// The inputs of the steps.
pub open spec fn inputs_of(steps: Seq<DecoderStep>) -> Seq<Seq<u8>> {
    steps.map_values(|s: DecoderStep| s.input)
}

/// Everything that the steps gave.
pub open spec fn all_given(steps: Seq<DecoderStep>) -> Seq<u8>
    decreases steps.len(),
{
    if steps.len() == 0 {
        Seq::empty()
    } else {
        all_given(steps.drop_last()) + steps.last().given
    }
}

/// The step took or gave something.
pub open spec fn did_something(step: DecoderStep) -> bool {
    step.taken > 0 || step.given.len() > 0
}

/// What the step left of its input.
pub open spec fn rest_of(step: DecoderStep) -> Seq<u8> {
    step.input.skip(step.taken as int)
}

/// The decoder, whose windows are 8 MiB at most, went through these steps after
/// `before`, each on what the one in front of it left of `chunk`.
pub open spec fn decoder_goes(before: Seq<Seq<u8>>, chunk: Seq<u8>, steps: Seq<DecoderStep>) -> bool {
    &&& steps.len() > 0 ==> steps[0].input == chunk
    &&& forall|k: int|
        0 <= k < steps.len() - 1 ==> steps[k + 1].input == #[trigger] rest_of(steps[k])
    &&& forall|k: int|
        0 <= k < steps.len() ==> (#[trigger] steps[k]).taken <= steps[k].input.len() && zstd_step(
            Some(23u32),
            before + inputs_of(steps.take(k)),
            steps[k].input,
        ) == Ok::<(nat, Seq<u8>, nat), Seq<char>>((steps[k].taken, steps[k].given, steps[k].hint))
}

/// The step took all that it was given and had room to spare, so that the
/// decoder holds nothing back.
pub open spec fn is_last(step: DecoderStep) -> bool {
    step.taken == step.input.len() && step.given.len() < 131072
}

/// Seventeen steps from `k` on did nothing.
pub open spec fn stands_still(steps: Seq<DecoderStep>, k: int) -> bool {
    forall|j: int| k <= j <= k + 16 ==> !did_something(#[trigger] steps[j])
}

/// Where a frame stands after the steps: the last one that did something says
/// it.
pub open spec fn done_after(steps: Seq<DecoderStep>, done: bool) -> bool
    decreases steps.len(),
{
    if steps.len() == 0 {
        done
    } else if did_something(steps.last()) {
        steps.last().hint == 0
    } else {
        done_after(steps.drop_last(), done)
    }
}

/// What is known of a NAR after the first `m` steps.
spec fn nar_after(nar: NarView, steps: Seq<DecoderStep>, m: int) -> NarView {
    NarView {
        before: nar.before + inputs_of(steps.take(m)),
        content: nar.content + all_given(steps.take(m)),
        frame_done: done_after(steps.take(m), nar.frame_done),
    }
}

/// One more step.
proof fn one_more_step(nar: NarView, steps: Seq<DecoderStep>, m: int)
    requires
        0 <= m < steps.len(),
    ensures
        nar_after(nar, steps, m + 1).before == nar_after(nar, steps, m).before.push(steps[m].input),
        nar_after(nar, steps, m + 1).content == nar_after(nar, steps, m).content + steps[m].given,
        nar_after(nar, steps, m + 1).frame_done == if did_something(steps[m]) {
            steps[m].hint == 0
        } else {
            nar_after(nar, steps, m).frame_done
        },
{
    let more = steps.take(m + 1);
    assert(more.drop_last() =~= steps.take(m));
    assert(more.last() == steps[m]);
    assert(inputs_of(more) =~= inputs_of(steps.take(m)).push(steps[m].input));
    assert(nar.before + inputs_of(more) =~= (nar.before + inputs_of(steps.take(m))).push(
        steps[m].input,
    ));
    assert(nar.content + all_given(more) =~= (nar.content + all_given(steps.take(m)))
        + steps[m].given);
}

/// What the first steps gave is a part of what all gave.
proof fn given_grows(steps: Seq<DecoderStep>, m: int)
    requires
        0 <= m <= steps.len(),
    ensures
        all_given(steps.take(m)).len() <= all_given(steps).len(),
    decreases steps.len() - m,
{
    if m < steps.len() {
        given_grows(steps, m + 1);
        assert(steps.take(m + 1).drop_last() =~= steps.take(m));
    } else {
        assert(steps.take(m) =~= steps);
    }
}

/// What one step means for a NAR that stays within its claim.
proof fn one_step_on(nar: NarView, claimed: int, step: DecoderStep, idle: nat)
    requires
        zstd_step(Some(23u32), nar.before, step.input) == Ok::<(nat, Seq<u8>, nat), Seq<char>>(
            (step.taken, step.given, step.hint),
        ),
        step.taken <= step.input.len(),
        nar.content.len() + step.given.len() <= claimed,
        did_something(step) || idle > 0 || is_last(step),
    ensures
        ({
            let next = NarView {
                before: nar.before.push(step.input),
                content: nar.content + step.given,
                frame_done: if did_something(step) {
                    step.hint == 0
                } else {
                    nar.frame_done
                },
            };
            decompressed(nar, claimed, step.input, idle) == if is_last(step) {
                Ok::<NarView, Seq<char>>(next)
            } else if did_something(step) {
                decompressed(next, claimed, rest_of(step), 16)
            } else {
                decompressed(next, claimed, rest_of(step), (idle - 1) as nat)
            }
        }),
{
    if !did_something(step) {
        assert(step.input.skip(0) =~= step.input);
    }
}

/// See [`honest_chunks_pass`]; from step `m` on, the `n` before it idle.
proof fn honest_steps_pass(
    nar: NarView,
    claimed: int,
    chunk: Seq<u8>,
    steps: Seq<DecoderStep>,
    m: int,
    n: int,
)
    requires
        decoder_goes(nar.before, chunk, steps),
        is_last(steps.last()),
        forall|k: int| 0 <= k < steps.len() - 1 ==> !is_last(#[trigger] steps[k]),
        nar.content.len() + all_given(steps).len() <= claimed,
        forall|k: int| 0 <= k && k + 16 < steps.len() - 1 ==> !#[trigger] stands_still(steps, k),
        0 <= m < steps.len(),
        0 <= n <= 16,
        n <= m,
        forall|k: int| m - n <= k < m ==> !did_something(#[trigger] steps[k]),
    ensures
        decompressed(nar_after(nar, steps, m), claimed, steps[m].input, (16 - n) as nat) == Ok::<
            NarView,
            Seq<char>,
        >(nar_after(nar, steps, steps.len() as int)),
    decreases steps.len() - m,
{
    let here = nar_after(nar, steps, m);
    let next = nar_after(nar, steps, m + 1);
    let step = steps[m];
    one_more_step(nar, steps, m);
    given_grows(steps, m + 1);
    assert(here.content.len() + step.given.len() <= claimed);
    if m + 1 < steps.len() && n == 16 && !did_something(step) {
        assert(stands_still(steps, m - 16));
        assert(false);
    }
    one_step_on(here, claimed, step, (16 - n) as nat);
    assert(next == NarView {
        before: here.before.push(step.input),
        content: here.content + step.given,
        frame_done: if did_something(step) {
            step.hint == 0
        } else {
            here.frame_done
        },
    });
    if m + 1 < steps.len() {
        assert(steps[m + 1].input == rest_of(steps[m]));
        if did_something(step) {
            honest_steps_pass(nar, claimed, chunk, steps, m + 1, 0);
        } else {
            honest_steps_pass(nar, claimed, chunk, steps, m + 1, n + 1);
        }
    }
}

/// An honest chunk passes, however much it holds: where the decoder goes
/// through all of it without an error, gives no more in all than is claimed and
/// does not stand still for seventeen steps in a row, the chunk is let through,
/// and the content has grown by all that the decoder gave.
pub proof fn honest_chunks_pass(
    nar: NarView,
    claimed: int,
    chunk: Seq<u8>,
    steps: Seq<DecoderStep>,
)
    requires
        decoder_goes(nar.before, chunk, steps),
        steps.len() > 0,
        is_last(steps.last()),
        forall|k: int| 0 <= k < steps.len() - 1 ==> !is_last(#[trigger] steps[k]),
        nar.content.len() + all_given(steps).len() <= claimed,
        forall|k: int| 0 <= k && k + 16 < steps.len() - 1 ==> !#[trigger] stands_still(steps, k),
    ensures
        decompressed(nar, claimed, chunk, MAX_IDLE as nat) == Ok::<NarView, Seq<char>>(
            (NarView {
                before: nar.before + inputs_of(steps),
                content: nar.content + all_given(steps),
                frame_done: done_after(steps, nar.frame_done),
            }),
        ),
{
    honest_steps_pass(nar, claimed, chunk, steps, 0, 0);
    assert(steps[0].input == chunk);
    assert(steps.take(0) =~= Seq::<DecoderStep>::empty());
    assert(nar_after(nar, steps, 0) =~= nar);
    assert(steps.take(steps.len() as int) =~= steps);
}

/// What the steps left of the chunk.
pub open spec fn left_by(chunk: Seq<u8>, steps: Seq<DecoderStep>) -> Seq<u8> {
    if steps.len() == 0 {
        chunk
    } else {
        rest_of(steps.last())
    }
}

/// Why a chunk may be refused after the steps, and what is said then.
pub open spec fn is_cause(
    nar: NarView,
    claimed: int,
    chunk: Seq<u8>,
    steps: Seq<DecoderStep>,
    reason: Seq<char>,
) -> bool {
    let next = zstd_step(Some(23u32), nar.before + inputs_of(steps), left_by(chunk, steps));
    ||| next is Err && reason == "NAR is not a valid zstd stream: "@ + next->Err_0
    ||| nar.content.len() + all_given(steps).len() > claimed && reason
        == "NAR is larger than its claimed NarSize "@ + decimal_int(claimed)
    ||| steps.len() >= 17 && stands_still(steps, steps.len() - 17) && reason
        == "NAR is not a valid zstd stream: no progress"@
}

/// One more step of the decoder.
proof fn decoder_goes_on(
    before: Seq<Seq<u8>>,
    chunk: Seq<u8>,
    steps: Seq<DecoderStep>,
    step: DecoderStep,
)
    requires
        decoder_goes(before, chunk, steps),
        step.input == left_by(chunk, steps),
        step.taken <= step.input.len(),
        zstd_step(Some(23u32), before + inputs_of(steps), step.input) == Ok::<
            (nat, Seq<u8>, nat),
            Seq<char>,
        >((step.taken, step.given, step.hint)),
    ensures
        decoder_goes(before, chunk, steps.push(step)),
        steps.push(step).take(steps.len() as int) == steps,
        all_given(steps.push(step)) == all_given(steps) + step.given,
{
    let more = steps.push(step);
    assert(more.take(steps.len() as int) =~= steps);
    assert(more.drop_last() =~= steps);
    assert forall|k: int| 0 <= k < more.len() - 1 implies more[k + 1].input == #[trigger] rest_of(
        more[k],
    ) by {
        assert(more[k] == steps[k]);
        if k < steps.len() - 1 {
            assert(steps[k + 1].input == rest_of(steps[k]));
        }
    }
    assert forall|k: int| 0 <= k < more.len() implies (#[trigger] more[k]).taken
        <= more[k].input.len() && zstd_step(
        Some(23u32),
        before + inputs_of(more.take(k)),
        more[k].input,
    ) == Ok::<(nat, Seq<u8>, nat), Seq<char>>((more[k].taken, more[k].given, more[k].hint)) by {
        assert(more.take(k) =~= steps.take(k));
        if k < steps.len() {
            assert(more[k] == steps[k]);
        } else {
            assert(steps.take(k) =~= steps);
        }
    }
}

/// A NAR that has ended is accepted if, and only if, its last frame is complete,
/// it is as long as claimed and its digest is the one claimed.
pub proof fn ended_nars_are_held_against_their_claim(
    nar: NarView,
    claimed_hash: Seq<char>,
    claimed_size: int,
)
    ensures
        refused_at_end(nar, claimed_hash, claimed_size) is None <==> nar.frame_done
            && nar.content.len() == claimed_size && claimed_hash == "sha256:"@ + base32(
            sha256(nar.content),
        ),
{
}

/// A NAR that is being verified as it passes.
pub struct VerifiedNar {
    /// The decompression.
    pub decoder: zstd::stream::raw::Decoder<'static>,
    /// The digest of what was decompressed.
    pub hasher: sha2::Sha256,
    /// Bytes decompressed.
    pub nar_size: u64,
    /// See [`NarView::frame_done`].
    pub frame_done: bool,
    /// The end was reached, or the NAR refused: nothing more is to come.
    pub finished: bool,
    /// The hash that the client claims, normalised.
    pub claimed_hash: String,
    /// The size that the client claims.
    pub claimed_size: i64,
    /// Why the NAR was refused, once it was.
    pub refused: Option<String>,
}

impl VerifiedNar {
    /// How far the decompression has come.
    pub open spec fn nar(self) -> NarView {
        NarView {
            before: stepped_on(self.decoder),
            content: absorbed(self.hasher),
            frame_done: self.frame_done,
        }
    }

    /// The counter fits, and no more was decompressed than is claimed.
    pub open spec fn wf(self) -> bool {
        &&& window_limit(self.decoder) == Some(WINDOW_LOG_MAX)
        &&& self.nar_size == absorbed(self.hasher).len()
        &&& self.nar_size > 0 ==> self.nar_size <= self.claimed_size
    }

    /// Begins to verify a NAR against a normalised hash and a size. An error
    /// would be the decoder's, whose set-up has none.
    pub fn new(claimed_hash: &str, claimed_size: i64) -> (r: Result<Self, String>)
        ensures
            r matches Ok(v) && {
                &&& v.wf()
                &&& v.nar() == (NarView {
                    before: Seq::empty(),
                    content: Seq::empty(),
                    frame_done: false,
                })
                &&& v.claimed_hash@ == claimed_hash@
                &&& v.claimed_size == claimed_size
                &&& !v.finished
                &&& v.refused is None
            },
    {
        let mut decoder = match new_decoder() {
            Ok(d) => d,
            Err(e) => {
                return Err(e);
            },
        };
        match limit_window(&mut decoder, WINDOW_LOG_MAX) {
            Ok(_) => {},
            Err(e) => {
                return Err(e);
            },
        }
        Ok(
            VerifiedNar {
                decoder,
                hasher: start(),
                nar_size: 0,
                frame_done: false,
                finished: false,
                claimed_hash: claimed_hash.to_owned(),
                claimed_size,
                refused: None,
            },
        )
    }

    /// Decompresses and digests a chunk, step by step until the decoder holds
    /// nothing back.
    fn decompress(&mut self, chunk: &[u8]) -> (r: Result<(), String>)
        requires
            old(self).wf(),
        ensures
            final(self).claimed_hash == old(self).claimed_hash,
            final(self).claimed_size == old(self).claimed_size,
            final(self).finished == old(self).finished,
            final(self).refused == old(self).refused,
            match r {
                Ok(_) => final(self).wf() && decompressed(
                    old(self).nar(),
                    old(self).claimed_size as int,
                    chunk@,
                    MAX_IDLE as nat,
                ) == Ok::<NarView, Seq<char>>(final(self).nar()),
                Err(e) => decompressed(
                    old(self).nar(),
                    old(self).claimed_size as int,
                    chunk@,
                    MAX_IDLE as nat,
                ) == Err::<NarView, Seq<char>>(e@),
            },
            r is Ok ==> exists|steps: Seq<DecoderStep>| #[trigger]
                decoder_goes(old(self).nar().before, chunk@, steps) && steps.len() > 0 && is_last(
                    steps.last(),
                ) && old(self).nar().content.len() + all_given(steps).len() <= old(
                    self,
                ).claimed_size && final(self).nar().content == old(self).nar().content
                    + all_given(steps),
            r matches Err(e) ==> exists|steps: Seq<DecoderStep>| #[trigger]
                decoder_goes(old(self).nar().before, chunk@, steps) && is_cause(
                    old(self).nar(),
                    old(self).claimed_size as int,
                    chunk@,
                    steps,
                    e@,
                ),
    {
        let len: usize = chunk.len();
        let mut at: usize = 0;
        let mut idle: usize = MAX_IDLE;
        let ghost claimed = self.claimed_size as int;
        assert(chunk@.skip(0) =~= chunk@);
        let ghost first = self.nar();
        let ghost mut steps: Seq<DecoderStep> = Seq::empty();
        assert(first.before + inputs_of(steps) =~= first.before);
        assert(first.content + all_given(steps) =~= first.content);
        loop
            invariant
                len == chunk@.len(),
                at <= len,
                claimed == self.claimed_size,
                self.wf(),
                self.claimed_hash == old(self).claimed_hash,
                self.claimed_size == old(self).claimed_size,
                self.finished == old(self).finished,
                self.refused == old(self).refused,
                decompressed(
                    old(self).nar(),
                    old(self).claimed_size as int,
                    chunk@,
                    MAX_IDLE as nat,
                ) == decompressed(self.nar(), claimed, chunk@.skip(at as int), idle as nat),
                first == old(self).nar(),
                decoder_goes(first.before, chunk@, steps),
                self.nar().before == first.before + inputs_of(steps),
                self.nar().content == first.content + all_given(steps),
                chunk@.skip(at as int) == left_by(chunk@, steps),
                idle <= 16,
                steps.len() >= 16 - idle,
                forall|k: int|
                    steps.len() - (16 - idle) <= k < steps.len() ==> !did_something(
                        #[trigger] steps[k],
                    ),
            decreases len - at, left_of(claimed, self.nar_size as int), idle,
        {
            let ghost nar = self.nar();
            let input = vstd::slice::slice_subrange(chunk, at, len);
            assert(input@ =~= chunk@.skip(at as int));
            let (taken, given, hint) = match step(&mut self.decoder, input) {
                Ok(s) => s,
                Err(e) => {
                    let reason = "NAR is not a valid zstd stream: ".to_owned().concat(e.as_str());
                    assert(is_cause(first, claimed, chunk@, steps, reason@));
                    return Err(reason);
                },
            };
            let more: usize = given.len();
            let ghost one = DecoderStep {
                input: input@,
                taken: taken as nat,
                given: given@,
                hint: hint as nat,
            };
            let ghost prior = steps;
            proof {
                decoder_goes_on(first.before, chunk@, steps, one);
                steps = steps.push(one);
                assert(inputs_of(steps) =~= inputs_of(prior).push(input@));
                assert(first.before + inputs_of(steps) =~= (first.before + inputs_of(prior)).push(
                    input@,
                ));
                assert(first.content + all_given(steps) =~= (first.content + all_given(prior))
                    + given@);
            }
            self.nar_size = self.nar_size + more as u64;
            if self.claimed_size < 0 || self.nar_size > self.claimed_size as u64 {
                let reason = "NAR is larger than its claimed NarSize ".to_owned().concat(
                    show_signed(self.claimed_size).as_str(),
                );
                assert(is_cause(first, claimed, chunk@, steps, reason@));
                return Err(reason);
            }
            absorb(&mut self.hasher, given.as_slice());
            let active = taken > 0 || more > 0;
            if active {
                self.frame_done = hint == 0;
            }
            if taken == len - at && more < SCRATCH {
                assert(is_last(steps.last()));
                return Ok(());
            }
            assert(chunk@.skip(at as int).skip(taken as int) =~= chunk@.skip(at + taken));
            if active {
                at += taken;
                idle = MAX_IDLE;
            } else if idle == 0 {
                let reason = "NAR is not a valid zstd stream: no progress".to_owned();
                proof {
                    let n = steps.len() as int;
                    assert forall|j: int| n - 17 <= j <= n - 17 + 16 implies !did_something(
                        #[trigger] steps[j],
                    ) by {
                        if j < n - 1 {
                            assert(steps[j] == prior[j]);
                        }
                    }
                    assert(stands_still(steps, n - 17));
                }
                assert(is_cause(first, claimed, chunk@, steps, reason@));
                return Err(reason);
            } else {
                idle -= 1;
                assert(chunk@.skip(at as int).skip(0) =~= chunk@.skip(at as int));
            }
        }
    }

    /// Refuses the NAR.
    fn refuse(&mut self, reason: String)
        ensures
            opt_text(final(self).refused) == Some(reason@),
            final(self).finished,
            final(self).decoder == old(self).decoder,
            final(self).hasher == old(self).hasher,
            final(self).nar_size == old(self).nar_size,
            final(self).frame_done == old(self).frame_done,
            final(self).claimed_hash == old(self).claimed_hash,
            final(self).claimed_size == old(self).claimed_size,
    {
        self.refused = Some(reason);
        self.finished = true;
    }

    /// Takes the next chunk of the compressed NAR. `true` means that the chunk
    /// may pass on, untouched.
    pub fn feed(&mut self, chunk: &[u8]) -> (r: bool)
        requires
            old(self).wf(),
            !old(self).finished,
        ensures
            final(self).claimed_hash == old(self).claimed_hash,
            final(self).claimed_size == old(self).claimed_size,
            match decompressed(
                old(self).nar(),
                old(self).claimed_size as int,
                chunk@,
                MAX_IDLE as nat,
            ) {
                Ok(nar) => r && final(self).wf() && final(self).nar() == nar
                    && !final(self).finished && final(self).refused == old(self).refused,
                Err(reason) => !r && final(self).finished && opt_text(final(self).refused) == Some(
                    reason,
                ),
            },
            r ==> exists|steps: Seq<DecoderStep>| #[trigger]
                decoder_goes(old(self).nar().before, chunk@, steps) && steps.len() > 0 && is_last(
                    steps.last(),
                ) && old(self).nar().content.len() + all_given(steps).len() <= old(
                    self,
                ).claimed_size && final(self).nar().content == old(self).nar().content
                    + all_given(steps),
            !r ==> final(self).refused is Some && exists|steps: Seq<DecoderStep>| #[trigger]
                decoder_goes(old(self).nar().before, chunk@, steps) && is_cause(
                    old(self).nar(),
                    old(self).claimed_size as int,
                    chunk@,
                    steps,
                    final(self).refused->0@,
                ),
    {
        match self.decompress(chunk) {
            Ok(_) => true,
            Err(reason) => {
                self.refuse(reason);
                false
            },
        }
    }

    /// The compressed NAR has ended. `true` means that it is what the client
    /// claims, and may be stored.
    pub fn finish(&mut self) -> (r: bool)
        requires
            old(self).wf(),
            !old(self).finished,
        ensures
            final(self).finished,
            final(self).claimed_hash == old(self).claimed_hash,
            final(self).claimed_size == old(self).claimed_size,
            match refused_at_end(
                old(self).nar(),
                old(self).claimed_hash@,
                old(self).claimed_size as int,
            ) {
                None => r && final(self).refused == old(self).refused && absorbed(
                    old(self).hasher,
                ).len() == old(self).claimed_size && nar_hash_text(absorbed(old(self).hasher))
                    == old(self).claimed_hash@,
                Some(reason) => !r && opt_text(final(self).refused) == Some(reason),
            },
    {
        if !self.frame_done {
            self.refuse("NAR stream ended mid-frame".to_owned());
            return false;
        }
        if self.claimed_size < 0 || self.nar_size != self.claimed_size as u64 {
            let reason = "NarSize is ".to_owned().concat(show(self.nar_size).as_str()).concat(
                ", not the claimed ",
            ).concat(show_signed(self.claimed_size).as_str());
            self.refuse(reason);
            return false;
        }
        let mut hasher = start();
        std::mem::swap(&mut hasher, &mut self.hasher);
        let digest = finish(hasher);
        let hash = "sha256:".to_owned().concat(encode(digest.as_slice()).as_str());
        if !same(hash.as_str(), self.claimed_hash.as_str()) {
            let reason = "NarHash is ".to_owned().concat(hash.as_str()).concat(
                ", not the claimed ",
            ).concat(self.claimed_hash.as_str());
            self.refuse(reason);
            return false;
        }
        self.finished = true;
        true
    }
}

} // verus!
