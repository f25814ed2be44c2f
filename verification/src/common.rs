//! What the client and the server agree on: the metadata in front of an
//! uploaded NAR, and how a store path gives its hash.

use vstd::prelude::*;
use vstd::string::*;
use vstd::utf8::{encode_utf8, is_char_boundary};

use crate::db::{hash_of, hash_prefix};
use crate::text::{after_last, last_segment};

verus! {

/// The metadata that stands in front of an uploaded NAR.
#[derive(Debug, Clone)]
pub struct Preamble {
    /// Full store path of the object.
    pub store_path: String,
    /// Hash of the uncompressed NAR, as `nix path-info` reports it.
    pub nar_hash: String,
    /// Size of the uncompressed NAR in bytes.
    pub nar_size: i64,
    /// Full store paths of the references.
    pub references: Vec<String>,
    /// Store path of the deriver, where the local store knows it.
    pub deriver: Option<String>,
    /// The content address of a content-addressed path.
    pub ca: Option<String>,
}

/// The four bytes of `n`, the lowest first.
pub open spec fn le_bytes(n: int) -> Seq<u8> {
    seq![
        (n % 256) as u8,
        (n / 256 % 256) as u8,
        (n / 65536 % 256) as u8,
        (n / 16777216 % 256) as u8,
    ]
}

/// The number of which the first four bytes of `b` are the bytes, the lowest
/// first.
pub open spec fn le_value(b: Seq<u8>) -> int {
    b[0] + b[1] * 256 + b[2] * 65536 + b[3] * 16777216
}

/// The metadata as it is sent: its length in four bytes, the lowest first, and
/// then the JSON.
pub open spec fn framed(json: Seq<u8>) -> Seq<u8> {
    le_bytes(json.len() as int) + json
}

/// Puts the length in front of serialised metadata.
pub fn to_framed(json: &[u8]) -> (r: Vec<u8>)
    requires
        json@.len() <= u32::MAX,
    ensures
        r@ == framed(json@),
{
    let n: u32 = json.len() as u32;
    let mut out: Vec<u8> = Vec::new();
    out.push((n % 256) as u8);
    out.push((n / 256 % 256) as u8);
    out.push((n / 65536 % 256) as u8);
    out.push((n / 16777216 % 256) as u8);
    assert(out@ =~= le_bytes(n as int));
    out.extend_from_slice(json);
    assert(out@ =~= framed(json@));
    out
}

/// How long the metadata may be: 8 MiB.
pub const MAX_PREAMBLE: usize = 8388608;

/// The announced length of the metadata is implausible.
#[derive(Debug, Clone, Copy, PartialEq, Eq, Structural)]
pub struct Implausible;

/// Takes the serialised metadata off the front of what has come of a body, and
/// leaves the compressed NAR behind it. `None` means that more has to come.
pub fn take_preamble(buf: &mut Vec<u8>) -> (r: Result<Option<Vec<u8>>, Implausible>)
    ensures
        match r {
            Err(_) => old(buf)@.len() >= 4 && le_value(old(buf)@) > MAX_PREAMBLE && final(buf)@
                == old(buf)@,
            Ok(None) => final(buf)@ == old(buf)@ && (old(buf)@.len() < 4 || (le_value(old(buf)@)
                <= MAX_PREAMBLE && old(buf)@.len() < 4 + le_value(old(buf)@))),
            Ok(Some(json)) => {
                &&& old(buf)@.len() >= 4 + le_value(old(buf)@)
                &&& le_value(old(buf)@) <= MAX_PREAMBLE
                &&& json@ == old(buf)@.subrange(4, 4 + le_value(old(buf)@))
                &&& final(buf)@ == old(buf)@.skip(4 + le_value(old(buf)@))
            },
        },
{
    if buf.len() < 4 {
        return Ok(None);
    }
    let len: u32 = buf[0] as u32 + buf[1] as u32 * 256 + buf[2] as u32 * 65536 + buf[3] as u32
        * 16777216;
    if len as usize > MAX_PREAMBLE {
        return Err(Implausible);
    }
    let end: usize = 4 + len as usize;
    if buf.len() < end {
        return Ok(None);
    }
    let rest = buf.split_off(end);
    let json = buf.split_off(4);
    assert(json@ =~= old(buf)@.subrange(4, end as int));
    assert(rest@ =~= old(buf)@.skip(end as int));
    *buf = rest;
    Ok(Some(json))
}

/// What was framed is taken back as it was, with what follows it left behind,
/// however much of the body has come beyond it.
pub proof fn framing_round_trips(json: Seq<u8>, rest: Seq<u8>)
    requires
        json.len() <= MAX_PREAMBLE,
    ensures
        le_value(framed(json) + rest) == json.len(),
        (framed(json) + rest).subrange(4, 4 + json.len() as int) == json,
        (framed(json) + rest).skip(4 + json.len() as int) == rest,
{
    let b = framed(json) + rest;
    let n = json.len() as int;
    assert(b[0] == le_bytes(n)[0] && b[1] == le_bytes(n)[1] && b[2] == le_bytes(n)[2] && b[3]
        == le_bytes(n)[3]);
    assert(b.subrange(4, 4 + json.len() as int) =~= json);
    assert(b.skip(4 + json.len() as int) =~= rest);
}

/// The basename of a path can be cut behind 32 bytes.
pub open spec fn has_hash(path: Seq<char>) -> bool {
    let base = encode_utf8(after_last(path, '/'));
    base.len() < 32 || is_char_boundary(base, 32)
}

/// The hash of a store path, by which everything is keyed: the first 32 bytes
/// of its basename.
pub fn hash_of_store_path(path: &str) -> (r: &str)
    requires
        has_hash(path@),
    ensures
        r@ == hash_prefix(after_last(path@, '/')),
{
    hash_of(last_segment(path, '/'))
}

/// The length of the metadata stands in front of it in four bytes, the lowest
/// first, and metadata of more than 8 MiB is implausible.
pub proof fn lengths_stand_in_front(json: Seq<u8>)
    requires
        json.len() <= u32::MAX,
    ensures
        framed(json).len() == json.len() + 4,
        framed(json)[0] + framed(json)[1] * 256 + framed(json)[2] * 65536 + framed(json)[3] * 16777216
            == json.len(),
        framed(json).skip(4) == json,
        json.len() > MAX_PREAMBLE <==> json.len() > 8 * 1024 * 1024,
{
    assert(framed(json).skip(4) =~= json);
    let n = json.len() as int;
    assert(framed(json)[0] == le_bytes(n)[0] && framed(json)[1] == le_bytes(n)[1] && framed(json)[2]
        == le_bytes(n)[2] && framed(json)[3] == le_bytes(n)[3]);
}

} // verus!
