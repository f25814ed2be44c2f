//! The receiving service: which uploads it lets in, what it makes of their
//! metadata, and how it answers.

use vstd::prelude::*;
use vstd::string::*;

use crate::auth::Subject;
use crate::common::Preamble;
use crate::config::IssuerConfig;
use crate::db::{insert_object, Db, DbError, DbView, Object, ObjectView};
use crate::db::copy_opt;
use crate::inflight::{Claim, InFlight, Kind};
use crate::narinfo::{fingerprint_text, normalize_hash, normalized_hash, sign, signature_text};
use crate::narinfo::{digest_part, digest_refused, HashError, SigningKeyFile};
use crate::nix_base32::{base32, encode, is_store_hash, store_hash};
use crate::order::{sort_texts, sorted_texts, text_leq, text_leq_total};
use crate::text::{
    after_prefix, cut_at, first_of_finds, first_of_is, opt_str, opt_text, quoted, quoted_text,
    split_once, strip_prefix, texts, to_chars,
};

verus! {

/// The places for uploads.
#[derive(Debug, Clone, Copy, PartialEq, Eq, Structural)]
pub struct Slots {
    /// How many there are.
    pub limit: usize,
    /// How many are taken.
    pub taken: usize,
}

impl Slots {
    /// No place is taken.
    pub fn new(limit: usize) -> (r: Self)
        ensures
            r == (Slots { limit, taken: 0 }),
    {
        Slots { limit, taken: 0 }
    }

    /// Gives a place back.
    pub fn give_back(&mut self)
        requires
            old(self).taken > 0,
        ensures
            *final(self) == (Slots { limit: old(self).limit, taken: (old(self).taken - 1) as usize }),
    {
        self.taken = self.taken - 1;
    }
}

/// What becomes of an upload before a byte of its body is read.
pub enum Verdict {
    /// No uploads are taken while the cache is being repaired.
    Quiescing,
    /// The hash is none.
    BadHash,
    /// The object is there already.
    Exists,
    /// Every place is taken.
    Shed,
    /// Someone else is uploading the same object: the first wins, and the
    /// others may take it as done.
    InProgress,
    /// The object is being deleted.
    Deleting,
    /// The upload is let in, and holds a place and the claim.
    Accepted(Claim),
}

/// Decides on an upload, cheapest first, and takes a place and the claim for
/// one that is let in.
pub fn upload(
    quiescing: bool,
    hash: &str,
    stored: bool,
    slots: &mut Slots,
    in_flight: &mut InFlight,
) -> (r: Verdict)
    requires
        old(in_flight).wf(),
    ensures
        final(in_flight).wf(),
        final(slots).limit == old(slots).limit,
        r is Quiescing <==> quiescing,
        r is BadHash <==> !quiescing && !store_hash(hash@),
        r is Exists <==> !quiescing && store_hash(hash@) && stored,
        r is Shed <==> !quiescing && store_hash(hash@) && !stored && old(slots).taken >= old(
            slots,
        ).limit,
        r is InProgress <==> !quiescing && store_hash(hash@) && !stored && old(slots).taken < old(
            slots,
        ).limit && old(in_flight)@.dom().contains(hash@) && old(in_flight)@[hash@].1
            == Kind::Upload,
        r is Deleting <==> !quiescing && store_hash(hash@) && !stored && old(slots).taken < old(
            slots,
        ).limit && old(in_flight)@.dom().contains(hash@) && old(in_flight)@[hash@].1
            == Kind::Delete,
        match r {
            Verdict::Accepted(claim) => {
                &&& claim.hash@ == hash@
                &&& final(slots).taken == old(slots).taken + 1
                &&& !old(in_flight)@.dom().contains(hash@)
                &&& final(in_flight)@ == old(in_flight)@.insert(hash@, (hash@, Kind::Upload))
            },
            _ => *final(slots) == *old(slots) && *final(in_flight) == *old(in_flight),
        },
{
    if quiescing {
        return Verdict::Quiescing;
    }
    if !is_store_hash(hash) {
        return Verdict::BadHash;
    }
    if stored {
        return Verdict::Exists;
    }
    if slots.taken >= slots.limit {
        return Verdict::Shed;
    }
    match in_flight.claim(hash, Kind::Upload) {
        Ok(claim) => {
            slots.taken = slots.taken + 1;
            Verdict::Accepted(claim)
        },
        Err(Kind::Upload) => Verdict::InProgress,
        Err(Kind::Delete) => Verdict::Deleting,
    }
}

/// An answer to a request.
#[derive(Debug)]
pub struct Answer {
    /// The HTTP status.
    pub status: u16,
    /// The status word of a success, or the message of an error.
    pub text: String,
    /// The client is told when to come back.
    pub retry_after: bool,
}

impl Verdict {
    /// The status of the answer; an upload that is let in is answered when it
    /// is done.
    pub open spec fn status(self) -> u16 {
        match self {
            Verdict::Quiescing | Verdict::Deleting => 503,
            Verdict::BadHash => 400,
            Verdict::Exists | Verdict::InProgress => 200,
            Verdict::Shed => 429,
            Verdict::Accepted(_) => 201,
        }
    }

    /// The text of the answer.
    pub open spec fn text(self, hash: Seq<char>) -> Seq<char> {
        match self {
            Verdict::Quiescing => "cache is quiescing for fsck --repair --quiesce"@,
            Verdict::BadHash => quoted_text(hash) + " is not a store path hash"@,
            Verdict::Exists => "exists"@,
            Verdict::Shed => "too many concurrent uploads"@,
            Verdict::InProgress => "in-progress"@,
            Verdict::Deleting => "this path is being deleted"@,
            Verdict::Accepted(_) => "created"@,
        }
    }

    /// How the upload of `hash` is answered. Only a client that was turned away
    /// for want of a place is told when to come back.
    pub fn answer(&self, hash: &str) -> (r: Answer)
        ensures
            r.status == self.status(),
            r.text@ == self.text(hash@),
            r.retry_after == (self is Shed),
    {
        let (status, text) = match self {
            Verdict::Quiescing => (
                503u16,
                "cache is quiescing for fsck --repair --quiesce".to_owned(),
            ),
            Verdict::BadHash => (400u16, quoted(hash).concat(" is not a store path hash")),
            Verdict::Exists => (200u16, "exists".to_owned()),
            Verdict::Shed => (429u16, "too many concurrent uploads".to_owned()),
            Verdict::InProgress => (200u16, "in-progress".to_owned()),
            Verdict::Deleting => (503u16, "this path is being deleted".to_owned()),
            Verdict::Accepted(_) => (201u16, "created".to_owned()),
        };
        let retry_after = match self {
            Verdict::Shed => true,
            _ => false,
        };
        Answer { status, text, retry_after }
    }

    /// The reason under which an upload that is not read is counted.
    pub fn skipped(&self) -> (r: Option<&'static str>)
        ensures
            match self {
                Verdict::Quiescing => opt_str(r) == Some("quiescing"@),
                Verdict::Exists => opt_str(r) == Some("exists"@),
                Verdict::InProgress => opt_str(r) == Some("in-progress"@),
                Verdict::Deleting => opt_str(r) == Some("deleting"@),
                _ => r is None,
            },
    {
        match self {
            Verdict::Quiescing => Some("quiescing"),
            Verdict::Exists => Some("exists"),
            Verdict::InProgress => Some("in-progress"),
            Verdict::Deleting => Some("deleting"),
            _ => None,
        }
    }
}

/// A character that Nix allows in the name of a store path.
pub open spec fn name_char(c: char) -> bool {
    ('a' <= c && c <= 'z') || ('A' <= c && c <= 'Z') || ('0' <= c && c <= '9') || c == '+' || c
        == '-' || c == '.' || c == '_' || c == '?' || c == '='
}

/// A name that Nix allows.
pub open spec fn store_name(name: Seq<char>) -> bool {
    1 <= name.len() <= 211 && forall|i: int| 0 <= i < name.len() ==> name_char(#[trigger] name[i])
}

/// The basename of a store path, where Nix would accept it as one.
pub open spec fn basename_of(path: Seq<char>, store_dir: Seq<char>) -> Option<Seq<char>> {
    match after_prefix(path, store_dir) {
        None => None,
        Some(rest) => match after_prefix(rest, "/"@) {
            None => None,
            Some(base) => match cut_at(base, '-') {
                None => None,
                Some((hash, name)) => if store_hash(hash) && store_name(name) {
                    Some(base)
                } else {
                    None
                },
            },
        },
    }
}

fn is_store_name(name: &str) -> (r: bool)
    ensures
        r == store_name(name@),
{
    let chars = to_chars(name);
    let n: usize = chars.len();
    if n < 1 || n > 211 {
        return false;
    }
    let mut i: usize = 0;
    while i < n
        invariant
            i <= n,
            n == chars@.len(),
            chars@ == name@,
            forall|k: int| 0 <= k < i ==> name_char(#[trigger] name@[k]),
        decreases n - i,
    {
        let c = chars[i];
        let fine = ('a' <= c && c <= 'z') || ('A' <= c && c <= 'Z') || ('0' <= c && c <= '9') || c
            == '+' || c == '-' || c == '.' || c == '_' || c == '?' || c == '=';
        if !fine {
            assert(!name_char(name@[i as int]));
            return false;
        }
        i += 1;
    }
    true
}

/// The basename of a store path, where Nix would accept it as one: 32 digits
/// of base 32, a dash, and a name of 1 to 211 characters that Nix allows.
pub fn store_basename<'a>(path: &'a str, store_dir: &str) -> (r: Option<&'a str>)
    ensures
        opt_str(r) == basename_of(path@, store_dir@),
{
    let rest = match strip_prefix(path, store_dir) {
        None => {
            return None;
        },
        Some(rest) => rest,
    };
    let base = match strip_prefix(rest, "/") {
        None => {
            return None;
        },
        Some(base) => base,
    };
    match split_once(base, '-') {
        None => None,
        Some((hash, name)) => if is_store_hash(hash) && is_store_name(name) {
            Some(base)
        } else {
            None
        },
    }
}

/// Why the metadata of an upload is refused.
#[derive(Debug)]
pub enum BadPreamble {
    /// The store path is not that of the hash in the URL.
    StorePath,
    /// A reference is no store path.
    Reference(String),
    /// The deriver is no store path.
    Deriver(String),
    /// The content address is not a single line.
    Ca(String),
    /// The hash of the NAR cannot be read.
    NarHash(HashError),
}

/// The name in a store path of `hash`.
pub open spec fn name_of(path: Seq<char>, store_dir: Seq<char>, hash: Seq<char>) -> Option<
    Seq<char>,
> {
    match basename_of(path, store_dir) {
        None => None,
        Some(base) => match after_prefix(base, hash) {
            None => None,
            Some(rest) => after_prefix(rest, "-"@),
        },
    }
}

/// The first `n` of `paths` are store paths.
pub open spec fn all_store_paths(paths: Seq<String>, n: int, store_dir: Seq<char>) -> bool {
    forall|i: int| 0 <= i < n ==> basename_of((#[trigger] paths[i])@, store_dir) is Some
}

/// The basenames of `paths`.
pub open spec fn basenames(paths: Seq<String>, store_dir: Seq<char>) -> Seq<Seq<char>> {
    Seq::new(paths.len(), |i: int| basename_of(paths[i]@, store_dir)->0)
}

/// A line break stands in `s`.
pub open spec fn has_line_break(s: Seq<char>) -> bool {
    exists|i: int| 0 <= i < s.len() && (#[trigger] s[i] == '\n' || s[i] == '\r')
}

/// The deriver is absent or a store path.
pub open spec fn deriver_fine(p: Preamble, store_dir: Seq<char>) -> bool {
    p.deriver is None || basename_of(p.deriver->0@, store_dir) is Some
}

/// The content address is absent or one line.
pub open spec fn ca_fine(p: Preamble) -> bool {
    p.ca is None || !has_line_break(p.ca->0@)
}

/// The metadata fits the hash in the URL and everything that it is used for.
pub open spec fn preamble_fine(p: Preamble, store_dir: Seq<char>, hash: Seq<char>) -> bool {
    &&& name_of(p.store_path@, store_dir, hash) is Some
    &&& all_store_paths(p.references@, p.references@.len() as int, store_dir)
    &&& deriver_fine(p, store_dir)
    &&& ca_fine(p)
    &&& normalized_hash(p.nar_hash@) is Some
}

/// `e` is the first thing that is wrong with the metadata.
pub open spec fn preamble_refused(
    e: BadPreamble,
    p: Preamble,
    store_dir: Seq<char>,
    hash: Seq<char>,
) -> bool {
    let named = name_of(p.store_path@, store_dir, hash) is Some;
    let refs = p.references@;
    let referring = named && all_store_paths(refs, refs.len() as int, store_dir);
    match e {
        BadPreamble::StorePath => !named,
        BadPreamble::Reference(path) => named && exists|i: int|
            0 <= i < refs.len() && all_store_paths(refs, i, store_dir) && path@
                == (#[trigger] refs[i])@ && basename_of(path@, store_dir) is None,
        BadPreamble::Deriver(path) => referring && !deriver_fine(p, store_dir) && opt_text(
            p.deriver,
        ) == Some(path@),
        BadPreamble::Ca(ca) => referring && deriver_fine(p, store_dir) && !ca_fine(p) && opt_text(
            p.ca,
        ) == Some(ca@),
        BadPreamble::NarHash(h) => referring && deriver_fine(p, store_dir) && ca_fine(p)
            && normalized_hash(p.nar_hash@) is None && match digest_part(p.nar_hash@) {
            None => h matches HashError::Unsupported { hash: s } && s@ == p.nar_hash@,
            Some(d) => digest_refused(d, h),
        },
    }
}

/// The object that the metadata describes, before anything is stored of it.
pub open spec fn object_of(
    p: Preamble,
    store_dir: Seq<char>,
    hash: Seq<char>,
    subject: Seq<char>,
) -> ObjectView {
    ObjectView {
        store_path_hash: hash,
        store_path: p.store_path@,
        name: name_of(p.store_path@, store_dir, hash)->0,
        nar_hash: normalized_hash(p.nar_hash@)->0,
        nar_size: p.nar_size,
        file_hash: Seq::empty(),
        file_size: 0,
        deriver: match p.deriver {
            None => None,
            Some(d) => basename_of(d@, store_dir),
        },
        ca: opt_text(p.ca),
        references: sorted_texts(basenames(p.references@, store_dir)),
        sigs: Seq::empty(),
        pushed_by: Some(subject),
    }
}

fn breaks_line(s: &str) -> (r: bool)
    ensures
        r == has_line_break(s@),
{
    let chars = to_chars(s);
    let mut i: usize = 0;
    while i < chars.len()
        invariant
            i <= chars@.len(),
            chars@ == s@,
            forall|k: int| 0 <= k < i ==> #[trigger] s@[k] != '\n' && s@[k] != '\r',
        decreases chars@.len() - i,
    {
        if chars[i] == '\n' || chars[i] == '\r' {
            assert(s@[i as int] == '\n' || s@[i as int] == '\r');
            return true;
        }
        i += 1;
    }
    false
}

/// The basenames of the references, or the first that is no store path.
fn reference_names(references: &Vec<String>, store_dir: &str) -> (r: Result<Vec<String>, String>)
    ensures
        match r {
            Ok(names) => all_store_paths(references@, references@.len() as int, store_dir@)
                && texts(names@) == basenames(references@, store_dir@),
            Err(path) => exists|i: int|
                0 <= i < references@.len() && all_store_paths(references@, i, store_dir@) && path@
                    == (#[trigger] references@[i])@ && basename_of(path@, store_dir@) is None,
        },
{
    let mut names: Vec<String> = Vec::new();
    let mut i: usize = 0;
    while i < references.len()
        invariant
            i <= references@.len(),
            names@.len() == i,
            all_store_paths(references@, i as int, store_dir@),
            forall|k: int|
                0 <= k < i ==> Some((#[trigger] names@[k])@) == basename_of(
                    references@[k]@,
                    store_dir@,
                ),
        decreases references@.len() - i,
    {
        match store_basename(references[i].as_str(), store_dir) {
            Some(base) => {
                names.push(base.to_owned());
            },
            None => {
                return Err(references[i].clone());
            },
        }
        i += 1;
    }
    assert(texts(names@) =~= basenames(references@, store_dir@));
    Ok(names)
}

/// Turns the metadata of an upload into an object without blob and signatures.
/// Every field ends up in the catalogue, the narinfo or the signed fingerprint,
/// so that each must be what Nix itself would produce.
pub fn build_object(hash: &str, preamble: &Preamble, store_dir: &str, subject: &Subject) -> (r:
    Result<Object, BadPreamble>)
    ensures
        match r {
            Ok(obj) => preamble_fine(*preamble, store_dir@, hash@) && obj@ == object_of(
                *preamble,
                store_dir@,
                hash@,
                subject.0@,
            ),
            Err(e) => preamble_refused(e, *preamble, store_dir@, hash@) && !preamble_fine(
                *preamble,
                store_dir@,
                hash@,
            ),
        },
{
    let name = match store_basename(preamble.store_path.as_str(), store_dir) {
        None => None,
        Some(base) => match strip_prefix(base, hash) {
            None => None,
            Some(rest) => strip_prefix(rest, "-"),
        },
    };
    let name = match name {
        None => {
            return Err(BadPreamble::StorePath);
        },
        Some(name) => name.to_owned(),
    };
    let names = match reference_names(&preamble.references, store_dir) {
        Ok(names) => names,
        Err(path) => {
            return Err(BadPreamble::Reference(path));
        },
    };
    let references = sort_texts(&names);
    let deriver = match &preamble.deriver {
        None => None,
        Some(path) => match store_basename(path.as_str(), store_dir) {
            Some(base) => Some(base.to_owned()),
            None => {
                return Err(BadPreamble::Deriver(path.clone()));
            },
        },
    };
    match &preamble.ca {
        None => {},
        Some(ca) => if breaks_line(ca.as_str()) {
            return Err(BadPreamble::Ca(ca.clone()));
        },
    }
    let nar_hash = match normalize_hash(preamble.nar_hash.as_str()) {
        Ok(h) => h,
        Err(e) => {
            return Err(BadPreamble::NarHash(e));
        },
    };
    let obj = Object {
        store_path_hash: hash.to_owned(),
        store_path: preamble.store_path.clone(),
        name,
        nar_hash,
        nar_size: preamble.nar_size,
        file_hash: String::new(),
        file_size: 0,
        deriver,
        ca: copy_opt(&preamble.ca),
        references,
        sigs: Vec::new(),
        pushed_by: Some(subject.0.clone()),
    };
    proof {
        assert(obj.file_hash@ =~= Seq::<char>::empty());
        assert(texts(obj.sigs@) =~= Seq::<Seq<char>>::empty());
        assert(obj@ =~= object_of(*preamble, store_dir@, hash@, subject.0@));
    }
    Ok(obj)
}

impl BadPreamble {
    /// What the client is told.
    pub open spec fn text(self, p: Preamble, store_dir: Seq<char>, hash: Seq<char>) -> Seq<char> {
        match self {
            BadPreamble::StorePath => "store path "@ + quoted_text(p.store_path@) + " is not "@
                + store_dir + "/"@ + hash + "-<name>"@,
            BadPreamble::Reference(path) => "reference "@ + quoted_text(path@)
                + " is not a store path in "@ + store_dir,
            BadPreamble::Deriver(path) => "deriver "@ + quoted_text(path@)
                + " is not a store path in "@ + store_dir,
            BadPreamble::Ca(ca) => "ca "@ + quoted_text(ca@) + " is not a single line"@,
            BadPreamble::NarHash(e) => e.text(),
        }
    }

    /// What the client is told.
    pub fn message(&self, preamble: &Preamble, store_dir: &str, hash: &str) -> (r: String)
        ensures
            r@ == self.text(*preamble, store_dir@, hash@),
    {
        match self {
            BadPreamble::StorePath => "store path ".to_owned().concat(
                quoted(preamble.store_path.as_str()).as_str(),
            ).concat(" is not ").concat(store_dir).concat("/").concat(hash).concat("-<name>"),
            BadPreamble::Reference(path) => "reference ".to_owned().concat(
                quoted(path.as_str()).as_str(),
            ).concat(" is not a store path in ").concat(store_dir),
            BadPreamble::Deriver(path) => "deriver ".to_owned().concat(
                quoted(path.as_str()).as_str(),
            ).concat(" is not a store path in ").concat(store_dir),
            BadPreamble::Ca(ca) => "ca ".to_owned().concat(quoted(ca.as_str()).as_str()).concat(
                " is not a single line",
            ),
            BadPreamble::NarHash(e) => e.message(),
        }
    }
}

/// No line of what is printed raw into a narinfo comes from anywhere but the
/// server: neither the deriver nor the content address of an object can break
/// a line.
pub proof fn accepted_metadata_breaks_no_line(p: Preamble, store_dir: Seq<char>, hash: Seq<char>, subject: Seq<char>)
    requires
        preamble_fine(p, store_dir, hash),
    ensures
        object_of(p, store_dir, hash, subject).deriver matches Some(d) ==> !has_line_break(d),
        object_of(p, store_dir, hash, subject).ca matches Some(ca) ==> !has_line_break(ca),
{
    if p.deriver is Some {
        let base = basename_of(p.deriver->0@, store_dir)->0;
        let (h, name) = cut_at(base, '-')->0;
        crate::text::first_of_finds(base, '-');
        assert forall|i: int| 0 <= i < base.len() implies #[trigger] base[i] != '\n' && base[i]
            != '\r' by {
            let k = crate::text::first_of(base, '-');
            if i < k {
                assert(h[i] == base[i]);
                crate::nix_base32::hash_breaks_no_line(h, i);
            } else if i > k {
                assert(name[i - k - 1] == base[i]);
                assert(name_char(name[i - k - 1]));
            }
        }
    }
}

/// Records an upload whose blob is stored: its digest and length, which the
/// server computed over exactly the bytes stored, and the signatures.
pub fn record_upload(
    db: &mut Db,
    object: Object,
    digest: &[u8],
    file_size: i64,
    store_dir: &str,
    keys: &Vec<SigningKeyFile>,
    now: i64,
) -> (r: Result<(), RecordError>)
    requires
        old(db).wf(),
        digest@.len() == 32,
        file_size >= 0,
        i64::MIN <= old(db).total_bytes + file_size - old(db)@.size_of(object.store_path_hash@)
            <= i64::MAX,
    ensures
        final(db).wf(),
        old(db).counted() ==> final(db).counted(),
        r is Err ==> *final(db) == *old(db),
        r matches Err(e) ==> (e is NoKeys <==> keys@.len() == 0),
        r is Err <==> keys@.len() == 0 || !object@.references.no_duplicates(),
        r is Ok ==> {
            let signed = ObjectView {
                file_hash: "sha256:"@ + base32(digest@),
                file_size,
                ..object@
            };
            &&& final(db)@.pins == old(db)@.pins
            &&& final(db).total_bytes == old(db).total_bytes + file_size - old(db)@.size_of(
                object.store_path_hash@,
            )
            &&& exists|sigs: Seq<Seq<char>>|
                #![trigger sigs.len()]
                {
                    &&& sigs.len() == keys@.len()
                    &&& forall|i: int|
                        0 <= i < sigs.len() ==> #[trigger] sigs[i] == signature_text(
                            keys@[i]@,
                            fingerprint_text(object@, store_dir@),
                        )
                    &&& final(db)@.objects == old(db)@.objects.insert(
                        object.store_path_hash@,
                        DbView::stored(ObjectView { sigs, ..signed }, now),
                    )
                }
        },
{
    let mut object = object;
    let ghost before = object@;
    object.file_hash = "sha256:".to_owned().concat(encode(digest).as_str());
    object.file_size = file_size;
    assert(fingerprint_text(object@, store_dir@) == fingerprint_text(before, store_dir@));
    match sign(&object, store_dir, keys) {
        Err(_) => {
            return Err(RecordError::NoKeys);
        },
        Ok(sigs) => {
            object.sigs = sigs;
        },
    }
    let ghost sigs = texts(object.sigs@);
    assert(sigs.len() == keys@.len());
    match insert_object(db, &object, now) {
        Err(e) => Err(RecordError::Refused(e)),
        Ok(_) => {
            assert(object@ == (ObjectView {
                sigs,
                file_hash: "sha256:"@ + base32(digest@),
                file_size,
                ..before
            }));
            Ok(())
        },
    }
}

/// Why a stored upload cannot be recorded.
#[derive(Debug)]
pub enum RecordError {
    /// There is no key to sign with.
    NoKeys,
    /// The catalogue refuses the object.
    Refused(DbError),
}

/// The token in an `Authorization` header.
pub fn bearer(header: Option<&str>) -> (r: Option<&str>)
    ensures
        opt_str(r) == match header {
            None => None,
            Some(h) => after_prefix(h@, "Bearer "@),
        },
{
    match header {
        None => None,
        Some(h) => strip_prefix(h, "Bearer "),
    }
}

/// The issuer that people log in with: the first with a public client.
pub fn login_issuer(issuers: &Vec<IssuerConfig>) -> (r: Option<usize>)
    ensures
        match r {
            Some(i) => i < issuers@.len() && issuers@[i as int].client_id is Some && forall|k: int|
                0 <= k < i ==> (#[trigger] issuers@[k]).client_id is None,
            None => forall|k: int|
                0 <= k < issuers@.len() ==> (#[trigger] issuers@[k]).client_id is None,
        },
{
    let mut i: usize = 0;
    while i < issuers.len()
        invariant
            i <= issuers@.len(),
            forall|k: int| 0 <= k < i ==> (#[trigger] issuers@[k]).client_id is None,
        decreases issuers@.len() - i,
    {
        if issuers[i].client_id.is_some() {
            return Some(i);
        }
        i += 1;
    }
    None
}

/// A hexadecimal digit.
pub open spec fn hex_char(d: int) -> char {
    if d < 10 {
        ('0' as int + d) as char
    } else {
        ('a' as int + d - 10) as char
    }
}

/// The lowest `n` hexadecimal digits of `v`.
pub open spec fn hex(v: int, n: nat) -> Seq<char>
    decreases n,
{
    if n == 0 {
        Seq::empty()
    } else {
        hex(v / 16, (n - 1) as nat).push(hex_char(v % 16))
    }
}

fn hex_digit(d: u64) -> (r: char)
    requires
        d < 16,
    ensures
        r == hex_char(d as int),
{
    match d {
        0 => '0',
        1 => '1',
        2 => '2',
        3 => '3',
        4 => '4',
        5 => '5',
        6 => '6',
        7 => '7',
        8 => '8',
        9 => '9',
        10 => 'a',
        11 => 'b',
        12 => 'c',
        13 => 'd',
        14 => 'e',
        _ => 'f',
    }
}

fn show_hex(v: u64, n: usize) -> (r: String)
    ensures
        r@ == hex(v as int, n as nat),
    decreases n,
{
    if n == 0 {
        let r = String::new();
        assert(r@ =~= hex(v as int, 0));
        return r;
    }
    let mut r = show_hex(v / 16, n - 1);
    r.push(hex_digit(v % 16));
    r
}

/// `fastrand::u64`: a random number, of which nothing is known.
#[verifier::external_body]
fn random() -> u64 {
    fastrand::u64(..)
}

/// An id under which an unexpected failure is logged, and all that the caller
/// learns of it.
#[derive(Debug)]
pub struct InternalError {
    /// Sixteen hexadecimal digits.
    pub id: String,
    /// What the caller is told.
    pub message: String,
}

/// What is told of a failure that is logged under the id `n`.
pub fn internal_error(n: u64) -> (r: InternalError)
    ensures
        r.id@ == hex(n as int, 16),
        r.message@ == "internal error (id "@ + hex(n as int, 16) + ")"@,
{
    let id = show_hex(n, 16);
    let message = "internal error (id ".to_owned().concat(id.as_str()).concat(")");
    InternalError { id, message }
}

/// What is told of a failure, under a fresh id. The message holds nothing of
/// what failed.
pub fn fresh_error() -> (r: InternalError)
    ensures
        exists|n: u64| #[trigger] hex(n as int, 16) == r.id@,
        r.message@ == "internal error (id "@ + r.id@ + ")"@,
{
    let n: u64 = random();
    internal_error(n)
}

/// Seconds between two sweeps for orphans: a week.
pub const SWEEP_INTERVAL: u64 = 604800;

/// The time since the last sweep after one more tick of the timer, and whether
/// the next sweep is due.
pub fn sweep_due(since: u64, interval: u64) -> (r: (u64, bool))
    requires
        since + interval <= u64::MAX,
    ensures
        r.1 == (since + interval >= SWEEP_INTERVAL),
        r.0 == if r.1 {
            0
        } else {
            since + interval
        },
{
    let since: u64 = since + interval;
    if since >= SWEEP_INTERVAL {
        (0, true)
    } else {
        (since, false)
    }
}

/// A name behind the dash of a basename: 1 to 211 characters that are letters,
/// digits or one of a few signs.
pub open spec fn is_plain_name(name: Seq<char>) -> bool {
    &&& 1 <= name.len() <= 211
    &&& forall|i: int|
        0 <= i < name.len() ==> 'a' <= #[trigger] name[i] <= 'z' || 'A' <= name[i] <= 'Z' || '0'
            <= name[i] <= '9' || "+-._?="@.contains(name[i])
}

/// 32 digits, none of them one that Nix leaves out.
pub open spec fn is_plain_hash(hash: Seq<char>) -> bool {
    &&& hash.len() == 32
    &&& forall|i: int|
        0 <= i < hash.len() ==> ('0' <= #[trigger] hash[i] <= '9' || 'a' <= hash[i] <= 'z')
            && hash[i] != 'e' && hash[i] != 'o' && hash[i] != 't' && hash[i] != 'u'
}

/// The digits of base 32 are the digits and the small letters, but for four.
proof fn plain_hashes(hash: Seq<char>)
    ensures
        store_hash(hash) <==> is_plain_hash(hash),
{
    reveal_strlit("0123456789abcdfghijklmnpqrsvwxyz");
    let all = crate::nix_base32::alphabet();
    if store_hash(hash) {
        assert forall|i: int| 0 <= i < hash.len() implies ('0' <= #[trigger] hash[i] <= '9' || 'a'
            <= hash[i] <= 'z') && hash[i] != 'e' && hash[i] != 'o' && hash[i] != 't' && hash[i]
            != 'u' by {
            assert(all.contains(hash[i]));
            let k = choose|k: int| 0 <= k < all.len() && all[k] == hash[i];
            assert(all[k] == hash[i]);
        }
    }
    if is_plain_hash(hash) {
        assert forall|i: int| 0 <= i < hash.len() implies all.contains(#[trigger] hash[i]) by {
            let c = hash[i];
            let v = c as int;
            let k = if c <= '9' {
                v - 48
            } else if c <= 'd' {
                v - 87
            } else if c <= 'n' {
                v - 88
            } else if c <= 's' {
                v - 89
            } else {
                v - 91
            };
            assert(all[k] == c);
        }
    }
}

/// The names of store paths are those of which every character is plain.
proof fn plain_names(name: Seq<char>)
    ensures
        store_name(name) <==> is_plain_name(name),
{
    reveal_strlit("+-._?=");
    let signs = "+-._?="@;
    assert(signs[0] == '+' && signs[1] == '-' && signs[2] == '.' && signs[3] == '_' && signs[4]
        == '?' && signs[5] == '=');
    assert forall|i: int| 0 <= i < name.len() implies (name_char(#[trigger] name[i]) <==> ('a'
        <= name[i] <= 'z' || 'A' <= name[i] <= 'Z' || '0' <= name[i] <= '9' || signs.contains(
        name[i],
    ))) by {
        let c = name[i];
        if signs.contains(c) {
            let k = choose|k: int| 0 <= k < signs.len() && signs[k] == c;
            assert(signs[k] == c);
        }
    }
}

/// What Nix calls a store path is taken for one, and nothing else is: the store
/// directory, a slash, 32 digits, a dash and a name.
pub proof fn store_paths_are_recognised(
    path: Seq<char>,
    store_dir: Seq<char>,
    hash: Seq<char>,
    name: Seq<char>,
)
    ensures
        path == store_dir + "/"@ + (hash + "-"@ + name) && is_plain_hash(hash) && is_plain_name(name)
            ==> basename_of(path, store_dir) == Some(hash + "-"@ + name) && name_of(
            path,
            store_dir,
            hash,
        ) == Some(name),
        name_of(path, store_dir, hash) == Some(name) && hash.len() == 32 ==> path == store_dir + "/"@
            + (hash + "-"@ + name) && is_plain_hash(hash) && is_plain_name(name),
        basename_of(path, store_dir) matches Some(base) ==> path == store_dir + "/"@ + base
            && base.len() >= 34 && base[32] == '-' && is_plain_hash(base.take(32)) && is_plain_name(
            base.skip(33),
        ),
{
    reveal_strlit("/");
    reveal_strlit("-");
    plain_hashes(hash);
    plain_names(name);
    let base = hash + "-"@ + name;
    let whole = store_dir + "/"@ + base;
    if path == whole && is_plain_hash(hash) && is_plain_name(name) {
        assert(path.take(store_dir.len() as int) =~= store_dir);
        assert(path.subrange(0, store_dir.len() as int) =~= store_dir);
        let rest = path.skip(store_dir.len() as int);
        assert(rest =~= "/"@ + base);
        assert(rest.subrange(0, 1) =~= "/"@);
        assert(rest.skip(1) =~= base);
        assert forall|k: int| 0 <= k < 32 implies base[k] != '-' by {
            assert(base[k] == hash[k]);
        }
        assert(base[32] == '-');
        first_of_is(base, '-', 32);
        assert(base.take(32) =~= hash);
        assert(base.skip(33) =~= name);
        assert(base.subrange(0, 32) =~= hash);
        let tail = base.skip(32);
        assert(tail =~= "-"@ + name);
        assert(tail.subrange(0, 1) =~= "-"@);
        assert(tail.skip(1) =~= name);
    }
    if basename_of(path, store_dir) is Some {
        let got = basename_of(path, store_dir)->0;
        assert(store_dir =~= path.subrange(0, store_dir.len() as int));
        let rest = path.skip(store_dir.len() as int);
        assert("/"@ =~= rest.subrange(0, 1));
        assert(got == rest.skip(1));
        assert(path =~= store_dir + "/"@ + got) by {
            assert(path =~= store_dir + rest);
            assert(rest =~= "/"@ + got);
        }
        first_of_finds(got, '-');
        let (h, n) = cut_at(got, '-')->0;
        plain_hashes(h);
        plain_names(n);
        assert(h.len() == 32);
        assert(got.take(32) =~= h);
        assert(got.skip(33) =~= n);
        if name_of(path, store_dir, hash) is Some {
            let tail = got.skip(hash.len() as int);
            let m = name_of(path, store_dir, hash)->0;
            assert(hash =~= got.subrange(0, hash.len() as int));
            assert("-"@ =~= tail.subrange(0, 1));
            assert(m == tail.skip(1));
            assert(got[hash.len() as int] == '-') by {
                assert(tail.subrange(0, 1)[0] == '-');
            }
            assert(got =~= hash + "-"@ + m) by {
                assert(got =~= hash + tail);
                assert(tail =~= "-"@ + m);
            }
            if hash.len() == 32 {
                assert(hash =~= h);
                assert(m =~= n);
            }
        }
    }
}

/// `path` is a store path in `store_dir`.
pub open spec fn is_plain_path(path: Seq<char>, store_dir: Seq<char>) -> bool {
    exists|hash: Seq<char>, name: Seq<char>| #[trigger]
        is_plain_hash(hash) && #[trigger] is_plain_name(name) && path == store_dir + "/"@ + (hash
            + "-"@ + name)
}

/// A path counts as one of the store if, and only if, it is one.
proof fn plain_paths(path: Seq<char>, store_dir: Seq<char>)
    ensures
        basename_of(path, store_dir) is Some <==> is_plain_path(path, store_dir),
{
    store_paths_are_recognised(path, store_dir, Seq::empty(), Seq::empty());
    if is_plain_path(path, store_dir) {
        let (hash, name) = choose|hash: Seq<char>, name: Seq<char>| #[trigger]
            is_plain_hash(hash) && #[trigger] is_plain_name(name) && path == store_dir + "/"@ + (hash
                + "-"@ + name);
        store_paths_are_recognised(path, store_dir, hash, name);
    }
    if basename_of(path, store_dir) is Some {
        reveal_strlit("-");
        let base = basename_of(path, store_dir)->0;
        assert(base =~= base.take(32) + "-"@ + base.skip(33));
        assert(is_plain_hash(base.take(32)) && is_plain_name(base.skip(33)));
    }
}

/// Metadata is accepted if, and only if, it names a store path of the hash it was
/// sent under, store paths alone as references and deriver, a content address
/// on one line, and a hash of the NAR that can be read.
pub proof fn sound_metadata_is_accepted(p: Preamble, store_dir: Seq<char>, hash: Seq<char>)
    requires
        is_plain_hash(hash),
    ensures
        preamble_fine(p, store_dir, hash) <==> {
            &&& exists|name: Seq<char>| #[trigger]
                is_plain_name(name) && p.store_path@ == store_dir + "/"@ + (hash + "-"@ + name)
            &&& forall|i: int|
                0 <= i < p.references@.len() ==> is_plain_path(
                    (#[trigger] p.references@[i])@,
                    store_dir,
                )
            &&& p.deriver matches Some(d) ==> is_plain_path(d@, store_dir)
            &&& p.ca matches Some(ca) ==> !ca@.contains('\n') && !ca@.contains('\r')
            &&& normalized_hash(p.nar_hash@) is Some
        },
{
    let path = p.store_path@;
    if name_of(path, store_dir, hash) is Some {
        store_paths_are_recognised(path, store_dir, hash, name_of(path, store_dir, hash)->0);
    }
    if exists|name: Seq<char>| #[trigger]
        is_plain_name(name) && path == store_dir + "/"@ + (hash + "-"@ + name) {
        let name = choose|name: Seq<char>| #[trigger]
            is_plain_name(name) && path == store_dir + "/"@ + (hash + "-"@ + name);
        store_paths_are_recognised(path, store_dir, hash, name);
    }
    assert forall|i: int| 0 <= i < p.references@.len() implies (basename_of(
        (#[trigger] p.references@[i])@,
        store_dir,
    ) is Some <==> is_plain_path(p.references@[i]@, store_dir)) by {
        plain_paths(p.references@[i]@, store_dir);
    }
    if p.deriver is Some {
        plain_paths(p.deriver->0@, store_dir);
    }
    if p.ca is Some {
        let ca = p.ca->0@;
        if ca.contains('\n') {
            let i = choose|i: int| 0 <= i < ca.len() && ca[i] == '\n';
            assert(ca[i] == '\n');
        }
        if ca.contains('\r') {
            let i = choose|i: int| 0 <= i < ca.len() && ca[i] == '\r';
            assert(ca[i] == '\r');
        }
    }
}

/// `path` is one of `names` in the store directory.
pub open spec fn is_among(path: Seq<char>, store_dir: Seq<char>, names: Seq<Seq<char>>) -> bool {
    exists|name: Seq<char>| #[trigger] names.contains(name) && path == store_dir + "/"@ + name
}

/// The object of accepted metadata is what the metadata says: its paths without
/// the store directory, nothing changed but the spelling of the hash, and in the
/// name of the caller.
pub proof fn objects_are_what_was_said(
    p: Preamble,
    store_dir: Seq<char>,
    hash: Seq<char>,
    subject: Seq<char>,
)
    requires
        preamble_fine(p, store_dir, hash),
        is_plain_hash(hash),
    ensures
        ({
            let obj = object_of(p, store_dir, hash, subject);
            &&& obj.store_path_hash == hash
            &&& obj.store_path == p.store_path@
            &&& p.store_path@ == store_dir + "/"@ + (hash + "-"@ + obj.name)
            &&& obj.nar_size == p.nar_size
            &&& Some(obj.nar_hash) == normalized_hash(p.nar_hash@)
            &&& obj.ca is Some <==> p.ca is Some
            &&& p.ca is Some ==> obj.ca->0 == p.ca->0@
            &&& obj.deriver is Some <==> p.deriver is Some
            &&& p.deriver is Some ==> p.deriver->0@ == store_dir + "/"@ + obj.deriver->0
            &&& obj.pushed_by == Some(subject)
            &&& obj.file_hash.len() == 0 && obj.file_size == 0 && obj.sigs.len() == 0
            &&& obj.references.len() == p.references@.len()
            &&& forall|i: int|
                0 <= i < p.references@.len() ==> is_among(
                    (#[trigger] p.references@[i])@,
                    store_dir,
                    obj.references,
                )
            &&& forall|r: Seq<char>| #[trigger]
                obj.references.contains(r) ==> texts(p.references@).contains(store_dir + "/"@ + r)
        }),
{
    let obj = object_of(p, store_dir, hash, subject);
    store_paths_are_recognised(p.store_path@, store_dir, hash, obj.name);
    if p.deriver is Some {
        store_paths_are_recognised(p.deriver->0@, store_dir, hash, obj.name);
    }
    let names = basenames(p.references@, store_dir);
    text_leq_total();
    names.lemma_sort_by_ensures(text_leq());
    names.to_multiset_ensures();
    obj.references.to_multiset_ensures();
    assert(obj.references.to_multiset().len() == names.to_multiset().len());
    assert forall|i: int| 0 <= i < p.references@.len() implies is_among(
        (#[trigger] p.references@[i])@,
        store_dir,
        obj.references,
    ) by {
        let path = p.references@[i]@;
        store_paths_are_recognised(path, store_dir, hash, obj.name);
        assert(basename_of(path, store_dir) is Some);
        assert(names[i] == basename_of(path, store_dir)->0);
        assert(names.contains(names[i]));
        assert(names.to_multiset().count(names[i]) > 0);
        assert(obj.references.contains(names[i]));
    }
    assert forall|r: Seq<char>| #[trigger] obj.references.contains(r) implies texts(
        p.references@,
    ).contains(store_dir + "/"@ + r) by {
        assert(obj.references.to_multiset().count(r) > 0);
        assert(names.contains(r));
        let i = choose|i: int| 0 <= i < names.len() && names[i] == r;
        store_paths_are_recognised(p.references@[i]@, store_dir, hash, obj.name);
        assert(basename_of(p.references@[i]@, store_dir) is Some);
        assert(texts(p.references@)[i] == store_dir + "/"@ + r);
    }
}

/// `v` without its lowest `k` hexadecimal digits.
pub open spec fn without_digits(v: int, k: nat) -> int
    decreases k,
{
    if k == 0 {
        v
    } else {
        without_digits(v / 16, (k - 1) as nat)
    }
}

/// An id has as many digits as asked for, and each of them stands for its share
/// of the number.
pub proof fn ids_spell_numbers(v: int, n: nat, k: nat)
    requires
        0 <= v,
        k < n,
    ensures
        hex(v, n).len() == n,
        hex(v, n)[n - 1 - k] == "0123456789abcdef"@[without_digits(v, k) % 16],
    decreases n,
{
    reveal_strlit("0123456789abcdef");
    if n == 1 {
        assert(hex(v / 16, 0).len() == 0);
    }
    if k > 0 {
        ids_spell_numbers(v / 16, (n - 1) as nat, (k - 1) as nat);
        assert(hex(v, n)[n - 1 - k] == hex(v / 16, (n - 1) as nat)[n - 1 - k]);
    } else if n > 1 {
        ids_spell_numbers(v / 16, (n - 1) as nat, 0);
    }
}

/// A client can tell from the status what to do: the object is there or on its
/// way where it is a success, nothing will help where the hash is none, and in
/// every other case another try will.
pub proof fn statuses_tell_what_to_do(verdict: Verdict)
    ensures
        verdict is Exists || verdict is InProgress <==> verdict.status() == 200,
        verdict is Accepted <==> verdict.status() == 201,
        verdict is BadHash <==> verdict.status() == 400,
        verdict is Shed <==> verdict.status() == 429,
        verdict is Quiescing || verdict is Deleting <==> verdict.status() == 503,
{
}

/// The sweep comes round once in seven days.
pub proof fn sweeps_are_weekly(since: u64, interval: u64)
    ensures
        since + interval >= SWEEP_INTERVAL <==> since + interval >= 7 * 24 * 60 * 60,
{
}

/// Metadata is refused for the first of its faults: the store path, then the
/// references, the deriver, the content address, and the hash of the NAR.
pub proof fn the_first_fault_is_told(
    e: BadPreamble,
    p: Preamble,
    store_dir: Seq<char>,
    hash: Seq<char>,
)
    requires
        preamble_refused(e, p, store_dir, hash),
        is_plain_hash(hash),
    ensures
        e is StorePath <==> !(exists|name: Seq<char>| #[trigger]
            is_plain_name(name) && p.store_path@ == store_dir + "/"@ + (hash + "-"@ + name)),
        e matches BadPreamble::Reference(path) ==> texts(p.references@).contains(path@)
            && !is_plain_path(path@, store_dir),
        e is Deriver || e is Ca || e is NarHash ==> forall|i: int|
            0 <= i < p.references@.len() ==> is_plain_path(
                (#[trigger] p.references@[i])@,
                store_dir,
            ),
        e matches BadPreamble::Deriver(path) ==> p.deriver is Some && p.deriver->0@ == path@
            && !is_plain_path(path@, store_dir),
        e is Ca || e is NarHash ==> p.deriver is None || is_plain_path(p.deriver->0@, store_dir),
        e matches BadPreamble::Ca(ca) ==> p.ca is Some && p.ca->0@ == ca@ && (ca@.contains('\n')
            || ca@.contains('\r')),
        e is NarHash ==> normalized_hash(p.nar_hash@) is None && (p.ca is None || (
        !p.ca->0@.contains('\n') && !p.ca->0@.contains('\r'))),
{
    let path = p.store_path@;
    if name_of(path, store_dir, hash) is Some {
        store_paths_are_recognised(path, store_dir, hash, name_of(path, store_dir, hash)->0);
    }
    if exists|name: Seq<char>| #[trigger]
        is_plain_name(name) && path == store_dir + "/"@ + (hash + "-"@ + name) {
        let name = choose|name: Seq<char>| #[trigger]
            is_plain_name(name) && path == store_dir + "/"@ + (hash + "-"@ + name);
        store_paths_are_recognised(path, store_dir, hash, name);
    }
    let refs = p.references@;
    if e is Reference {
        let bad = e->Reference_0@;
        plain_paths(bad, store_dir);
        let i = choose|i: int|
            0 <= i < refs.len() && all_store_paths(refs, i, store_dir) && bad
                == (#[trigger] refs[i])@ && basename_of(bad, store_dir) is None;
        assert(texts(refs)[i] == bad);
    }
    if e is Deriver || e is Ca || e is NarHash {
        assert forall|i: int| 0 <= i < refs.len() implies is_plain_path(
            (#[trigger] refs[i])@,
            store_dir,
        ) by {
            plain_paths(refs[i]@, store_dir);
        }
        if p.deriver is Some {
            plain_paths(p.deriver->0@, store_dir);
        }
    }
    if p.ca is Some {
        let ca = p.ca->0@;
        if has_line_break(ca) {
            let i = choose|i: int| 0 <= i < ca.len() && (#[trigger] ca[i] == '\n' || ca[i] == '\r');
            assert(ca.contains(ca[i]));
        }
        if ca.contains('\n') {
            let i = ca.index_of('\n');
            assert(ca[i] == '\n');
        }
        if ca.contains('\r') {
            let i = ca.index_of('\r');
            assert(ca[i] == '\r');
        }
    }
}

} // verus!
