//! Blobs: their keys, and how a body that arrives in chunks is cut into parts.

use vstd::prelude::*;
use vstd::string::*;

use crate::inflight::InFlight;
use crate::text::{after_prefix, before_suffix, opt_str, strip_prefix, strip_suffix, texts};

verus! {

/// The blob key of `hash`.
pub open spec fn blob_key(hash: Seq<char>) -> Seq<char> {
    "nar/"@ + hash + ".nar.zst"@
}

/// The blob key of an object: flat, and derivable from the row and back.
pub fn key_for(store_path_hash: &str) -> (r: String)
    ensures
        r@ == blob_key(store_path_hash@),
{
    "nar/".to_owned().concat(store_path_hash).concat(".nar.zst")
}

/// The hash that a blob key encodes.
pub open spec fn hash_in_key(key: Seq<char>) -> Option<Seq<char>> {
    match after_prefix(key, "nar/"@) {
        None => None,
        Some(rest) => match before_suffix(rest, ".nar.zst"@) {
            Some(hash) if hash.len() > 0 => Some(hash),
            _ => None,
        },
    }
}

/// The store path hash that a blob key encodes; `None` for anything outside
/// the layout of [`key_for`].
pub fn hash_for(key: &str) -> (r: Option<&str>)
    ensures
        opt_str(r) == hash_in_key(key@),
{
    match strip_prefix(key, "nar/") {
        None => None,
        Some(rest) => match strip_suffix(rest, ".nar.zst") {
            Some(hash) => if hash.is_empty() {
                None
            } else {
                Some(hash)
            },
            None => None,
        },
    }
}

/// A hash is read back from its own key.
pub proof fn key_round_trip(hash: Seq<char>)
    requires
        hash.len() > 0,
    ensures
        hash_in_key(blob_key(hash)) == Some(hash),
{
    let key = blob_key(hash);
    let rest = hash + ".nar.zst"@;
    assert("nar/"@.is_prefix_of(key));
    assert(key.skip("nar/"@.len() as int) =~= rest);
    assert(".nar.zst"@.is_suffix_of(rest));
    assert(rest.take(rest.len() - ".nar.zst"@.len()) =~= hash);
}

/// Only the key of a hash encodes it.
pub proof fn key_is_the_only_one(key: Seq<char>, hash: Seq<char>)
    requires
        hash_in_key(key) == Some(hash),
    ensures
        key == blob_key(hash),
{
    let rest = key.skip("nar/"@.len() as int);
    assert(key =~= "nar/"@ + rest);
    assert(rest =~= hash + ".nar.zst"@);
    assert(key =~= blob_key(hash));
}

/// Bounds the memory of uploads: so many bytes for each part on its way, and
/// so many parts over all uploads.
#[derive(Debug, Clone, Copy, PartialEq, Eq, Structural)]
pub struct UploadLimits {
    /// Bytes of a part, and of the smallest body that is sent in parts.
    pub part_size: usize,
    /// Parts of one upload on their way at once.
    pub max_parts_in_flight: usize,
    /// Parts that may be held at once, over all uploads.
    pub part_slots: u64,
}

impl UploadLimits {
    /// A cap in bytes becomes a whole number of parts, and at least one, so
    /// that no cap stops every upload.
    pub fn new(part_size: usize, max_parts_in_flight: usize, max_in_flight_bytes: u64) -> (r: Self)
        requires
            part_size > 0,
        ensures
            r.part_size == part_size,
            r.max_parts_in_flight == max_parts_in_flight,
            r.part_slots == if max_in_flight_bytes < part_size {
                1
            } else {
                max_in_flight_bytes as int / part_size as int
            },
    {
        let whole: u64 = max_in_flight_bytes / part_size as u64;
        proof {
            vstd::arithmetic::div_mod::lemma_fundamental_div_mod(
                max_in_flight_bytes as int,
                part_size as int,
            );
            if max_in_flight_bytes < part_size {
                vstd::arithmetic::div_mod::lemma_basic_div(
                    max_in_flight_bytes as int,
                    part_size as int,
                );
            } else {
                vstd::arithmetic::div_mod::lemma_div_non_zero(
                    max_in_flight_bytes as int,
                    part_size as int,
                );
            }
        }
        let part_slots = if whole == 0 {
            1
        } else {
            whole
        };
        UploadLimits { part_size, max_parts_in_flight, part_slots }
    }

    /// How many parts may be held at once, over all uploads.
    pub fn total_slots(&self) -> (r: u64)
        ensures
            r == self.part_slots,
    {
        self.part_slots
    }
}

/// A blob that the store lists.
#[derive(Debug)]
pub struct Blob {
    /// Its key.
    pub key: String,
    /// Seconds since it was written.
    pub age_secs: u64,
    /// Its size in bytes.
    pub size: i64,
}

/// How many keys one request to delete can name.
pub const DELETE_BATCH: usize = 1000;

/// Where batch `i` of `n` keys ends.
pub open spec fn batch_end(n: int, i: int) -> int {
    if (i + 1) * DELETE_BATCH <= n {
        (i + 1) * DELETE_BATCH
    } else {
        n
    }
}

/// The keys in the batches in which they are deleted: all full but the last,
/// none empty, and every key in its place.
pub fn delete_batches(keys: &Vec<String>) -> (r: Vec<Vec<String>>)
    ensures
        (r@.len() - 1) * DELETE_BATCH < keys@.len() <= r@.len() * DELETE_BATCH,
        forall|i: int|
            0 <= i < r@.len() ==> texts((#[trigger] r@[i])@) == texts(
                keys@.subrange(i * DELETE_BATCH, batch_end(keys@.len() as int, i)),
            ),
{
    let mut out: Vec<Vec<String>> = Vec::new();
    let mut at: usize = 0;
    while at < keys.len()
        invariant
            at <= keys@.len(),
            at == keys@.len() || at == out@.len() * DELETE_BATCH,
            out@.len() * DELETE_BATCH - DELETE_BATCH < at <= out@.len() * DELETE_BATCH,
            (out@.len() - 1) * DELETE_BATCH < keys@.len(),
            forall|i: int|
                0 <= i < out@.len() ==> texts((#[trigger] out@[i])@) == texts(
                    keys@.subrange(i * DELETE_BATCH, batch_end(keys@.len() as int, i)),
                ),
        decreases keys@.len() - at,
    {
        let mut batch: Vec<String> = Vec::new();
        let from: usize = at;
        while at < keys.len() && at - from < DELETE_BATCH
            invariant
                from <= at <= keys@.len(),
                at - from <= DELETE_BATCH,
                texts(batch@) == texts(keys@.subrange(from as int, at as int)),
            decreases keys@.len() - at,
        {
            let ghost prior = batch@;
            batch.push(keys[at].clone());
            assert(texts(batch@) =~= texts(prior).push(keys@[at as int]@));
            assert(keys@.subrange(from as int, at as int + 1) =~= keys@.subrange(
                from as int,
                at as int,
            ).push(keys@[at as int]));
            assert(texts(keys@.subrange(from as int, at as int + 1)) =~= texts(
                keys@.subrange(from as int, at as int),
            ).push(keys@[at as int]@));
            at += 1;
        }
        out.push(batch);
    }
    out
}

/// An upload in parts that the store reports as begun.
#[derive(Debug)]
pub struct OpenUpload {
    /// The key that it is for.
    pub key: String,
    /// The store's name for it.
    pub upload_id: String,
    /// Seconds since it began.
    pub age_secs: u64,
}

/// The hash that a key encodes, or nothing.
pub open spec fn hash_or_empty(key: Seq<char>) -> Seq<char> {
    match hash_in_key(key) {
        Some(hash) => hash,
        None => Seq::empty(),
    }
}

/// The begun upload is old, and nobody is at work on it.
pub open spec fn is_stale(upload: OpenUpload, grace_secs: u64, in_flight: InFlight) -> bool {
    upload.age_secs >= grace_secs && !in_flight@.dom().contains(hash_or_empty(upload.key@))
}

/// The positions of the begun uploads to abort: those older than the grace
/// that no live upload owns.
pub fn stale_uploads(uploads: &Vec<OpenUpload>, grace_secs: u64, in_flight: &InFlight) -> (r: Vec<
    usize,
>)
    requires
        in_flight.wf(),
    ensures
        forall|k: int, l: int| 0 <= k < l < r@.len() ==> #[trigger] r@[k] < #[trigger] r@[l],
        forall|i: usize|
            #[trigger] r@.contains(i) <==> i < uploads@.len() && is_stale(
                uploads@[i as int],
                grace_secs,
                *in_flight,
            ),
{
    let mut out: Vec<usize> = Vec::new();
    let mut at: usize = 0;
    while at < uploads.len()
        invariant
            at <= uploads@.len(),
            in_flight.wf(),
            forall|k: int, l: int|
                0 <= k < l < out@.len() ==> #[trigger] out@[k] < #[trigger] out@[l],
            forall|k: int| 0 <= k < out@.len() ==> #[trigger] out@[k] < at,
            forall|i: usize|
                #[trigger] out@.contains(i) <==> i < at && is_stale(
                    uploads@[i as int],
                    grace_secs,
                    *in_flight,
                ),
        decreases uploads@.len() - at,
    {
        let ghost prior = out@;
        let hash = match hash_for(uploads[at].key.as_str()) {
            Some(hash) => hash.to_owned(),
            None => String::new(),
        };
        if !in_flight.contains(hash.as_str()) && uploads[at].age_secs >= grace_secs {
            out.push(at);
            assert(out@.last() == at);
            assert forall|i: usize| #[trigger] out@.contains(i) == (prior.contains(i) || i == at) by {
                if prior.contains(i) {
                    let k = choose|k: int| 0 <= k < prior.len() && prior[k] == i;
                    assert(out@[k] == i);
                }
            }
        }
        at += 1;
    }
    out
}

/// Each key is deleted in one batch and no other, and no batch holds more than
/// 1000 keys, nor fewer while keys are left.
pub proof fn batches_share_out_the_keys(n: int, k: int, j: int)
    requires
        0 <= k < n,
        0 <= j,
    ensures
        j * 1000 <= k < batch_end(n, j) <==> j == k / 1000,
        batch_end(n, j) - j * 1000 <= 1000,
        (j + 1) * 1000 <= n ==> batch_end(n, j) - j * 1000 == 1000,
{
}

/// A begun upload is aborted once its age has reached the grace, unless its path
/// is held.
pub proof fn old_uploads_are_stale(
    upload: OpenUpload,
    hash: Seq<char>,
    grace_secs: u64,
    in_flight: InFlight,
)
    requires
        hash.len() > 0,
        upload.key@ == "nar/"@ + hash + ".nar.zst"@,
    ensures
        is_stale(upload, grace_secs, in_flight) <==> upload.age_secs >= grace_secs
            && !in_flight@.dom().contains(hash),
{
    key_round_trip(hash);
}

} // verus!
