//! Narinfo: the hashes that it holds, the text of it and the signatures over
//! it. Signatures are made when an object is stored; serving it takes no key.

use ed25519_dalek::Signer;
use vstd::prelude::*;
use vstd::string::*;
use vstd::utf8::encode_utf8;

use crate::db::{Object, ObjectView};
use crate::encoding::{
    base64_ends_black, base64_injective, from_base64, standard_base64, to_base64,
};
use crate::nix_base32::{all_in_alphabet, base32, encode, encoding_is_in_the_alphabet, in_alphabet};
use crate::number::{
    decimal, decimal_int, decimal_int_reads_back, decimal_reads_back, is_digit, parse_signed, show,
    show_signed,
};
use crate::order::{sort_texts, sorted_texts, sorted_texts_unique, text_leq, text_leq_total};
use crate::text::{
    after_prefix, cut_at, first_of, first_of_is, join, joined, joined_texts_come_apart,
    only_white_ends_are_cut, pieces, split_once, strip_prefix, text_le, texts,
    texts_are_cut_at_the_first, trim, trimmed, white,
};

verus! {

/// Why a hash was refused.
#[derive(Debug, PartialEq, Eq)]
pub enum HashError {
    /// It does not begin with `sha256:` or `sha256-`.
    Unsupported {
        /// The hash.
        hash: String,
    },
    /// Its digest is neither base 32 nor base64.
    NotADigest {
        /// The digest.
        digest: String,
    },
    /// Its digest is not of 32 bytes.
    WrongLength {
        /// The length of the digest.
        bytes: usize,
    },
}

impl HashError {
    /// What the client is told.
    pub open spec fn text(self) -> Seq<char> {
        match self {
            HashError::Unsupported { hash } => "unsupported hash format: "@ + hash@,
            HashError::NotADigest { digest } => "hash is neither nix-base32 nor base64: "@
                + digest@,
            HashError::WrongLength { bytes } => "expected a 32-byte sha256, got "@ + decimal(
                bytes as nat,
            ) + " bytes"@,
        }
    }

    /// What the client is told.
    pub fn message(&self) -> (r: String)
        ensures
            r@ == self.text(),
    {
        match self {
            HashError::Unsupported { hash } => "unsupported hash format: ".to_owned().concat(
                hash.as_str(),
            ),
            HashError::NotADigest { digest } =>
                "hash is neither nix-base32 nor base64: ".to_owned().concat(digest.as_str()),
            HashError::WrongLength { bytes } => "expected a 32-byte sha256, got ".to_owned().concat(
                show(*bytes as u64).as_str(),
            ).concat(" bytes"),
        }
    }
}

/// The digest in a hash: what stands behind `sha256:` or `sha256-`.
pub open spec fn digest_part(hash: Seq<char>) -> Option<Seq<char>> {
    match after_prefix(hash, "sha256:"@) {
        Some(d) => Some(d),
        None => after_prefix(hash, "sha256-"@),
    }
}

/// The digest is spelled as Nix prints it.
pub open spec fn canonical_digest(d: Seq<char>) -> bool {
    d.len() == 52 && in_alphabet(d)
}

/// The bytes that `d` spells in base64.
pub open spec fn decoded(d: Seq<char>) -> Option<Seq<u8>> {
    if exists|b: Seq<u8>| #[trigger] standard_base64(b) == d {
        Some(choose|b: Seq<u8>| #[trigger] standard_base64(b) == d)
    } else {
        None
    }
}

/// A text is decoded to the bytes that it was made from.
pub proof fn decoding_undoes_encoding(b: Seq<u8>)
    ensures
        decoded(standard_base64(b)) == Some(b),
{
    let d = standard_base64(b);
    assert(standard_base64(b) == d);
    let c = choose|c: Seq<u8>| #[trigger] standard_base64(c) == d;
    base64_injective(b, c);
}

/// The digest as Nix prints it.
pub open spec fn normalized_digest(d: Seq<char>) -> Option<Seq<char>> {
    if canonical_digest(d) {
        Some(d)
    } else {
        match decoded(d) {
            Some(b) if b.len() == 32 => Some(base32(b)),
            _ => None,
        }
    }
}

/// The hash as Nix prints and signs it.
pub open spec fn normalized_hash(hash: Seq<char>) -> Option<Seq<char>> {
    match digest_part(hash) {
        None => None,
        Some(d) => match normalized_digest(d) {
            None => None,
            Some(n) => Some("sha256:"@ + n),
        },
    }
}

/// `e` is why `d` is no digest.
pub open spec fn digest_refused(d: Seq<char>, e: HashError) -> bool {
    &&& !canonical_digest(d)
    &&& match decoded(d) {
        None => e matches HashError::NotADigest { digest } && digest@ == d,
        Some(b) => b.len() != 32 && (e matches HashError::WrongLength { bytes } && bytes
            == b.len()),
    }
}

fn normalize_digest(digest: &str) -> (r: Result<String, HashError>)
    ensures
        match r {
            Ok(n) => normalized_digest(digest@) == Some(n@),
            Err(e) => normalized_digest(digest@) is None && digest_refused(digest@, e),
        },
{
    if digest.unicode_len() == 52 && all_in_alphabet(digest) {
        return Ok(digest.to_owned());
    }
    match from_base64(digest) {
        Err(_) => Err(HashError::NotADigest { digest: digest.to_owned() }),
        Ok(bytes) => {
            proof {
                decoding_undoes_encoding(bytes@);
            }
            if bytes.len() != 32 {
                return Err(HashError::WrongLength { bytes: bytes.len() });
            }
            Ok(encode(bytes.as_slice()))
        },
    }
}

/// A hash in the one spelling that Nix prints and signs over: `sha256:` and 52
/// digits of base 32. What `nix path-info` reports in base64 names the same
/// bytes, and a signature over that spelling would verify as forged.
pub fn normalize_hash(hash: &str) -> (r: Result<String, HashError>)
    ensures
        match r {
            Ok(n) => normalized_hash(hash@) == Some(n@),
            Err(e) => normalized_hash(hash@) is None && match digest_part(hash@) {
                None => e matches HashError::Unsupported { hash: h } && h@ == hash@,
                Some(d) => digest_refused(d, e),
            },
        },
{
    let digest = match strip_prefix(hash, "sha256:") {
        Some(rest) => rest,
        None => match strip_prefix(hash, "sha256-") {
            Some(rest) => rest,
            None => {
                return Err(HashError::Unsupported { hash: hash.to_owned() });
            },
        },
    };
    match normalize_digest(digest) {
        Ok(n) => Ok("sha256:".to_owned().concat(n.as_str())),
        Err(e) => Err(e),
    }
}

/// The digest behind a prefix is found again.
proof fn digest_behind_prefix(d: Seq<char>)
    ensures
        digest_part("sha256:"@ + d) == Some(d),
        digest_part("sha256-"@ + d) == Some(d),
{
    reveal_strlit("sha256:");
    reveal_strlit("sha256-");
    let a = "sha256:"@ + d;
    let b = "sha256-"@ + d;
    assert(a.subrange(0, 7) =~= "sha256:"@);
    assert(a.skip(7) =~= d);
    assert(b.subrange(0, 7) =~= "sha256-"@);
    assert(b.skip(7) =~= d);
    assert("sha256:"@[6] != "sha256-"@[6]);
    assert(b[6] == '-');
    if "sha256:"@.is_prefix_of(b) {
        assert("sha256:"@ =~= b.subrange(0, 7));
        assert(b.subrange(0, 7)[6] == ':');
    }
}

/// A hash that was normalised stays as it is.
pub proof fn normalizing_is_idempotent(hash: Seq<char>)
    requires
        normalized_hash(hash) is Some,
    ensures
        normalized_hash(normalized_hash(hash)->0) == normalized_hash(hash),
{
    let d = digest_part(hash)->0;
    let n = normalized_digest(d)->0;
    if !canonical_digest(d) {
        encoding_is_in_the_alphabet(decoded(d)->0);
    }
    digest_behind_prefix(n);
}

/// The spellings of one digest normalise to the same hash: in base 32, and in
/// base64 behind either prefix.
pub proof fn spellings_agree(b: Seq<u8>)
    requires
        b.len() == 32,
    ensures
        normalized_hash("sha256:"@ + base32(b)) == Some("sha256:"@ + base32(b)),
        normalized_hash("sha256-"@ + standard_base64(b)) == Some("sha256:"@ + base32(b)),
        normalized_hash("sha256:"@ + standard_base64(b)) == Some("sha256:"@ + base32(b)),
{
    encoding_is_in_the_alphabet(b);
    digest_behind_prefix(base32(b));
    digest_behind_prefix(standard_base64(b));
    decoding_undoes_encoding(b);
    crate::encoding::base64_length(b);
}

/// The full store paths of an object's references.
pub open spec fn reference_paths(references: Seq<Seq<char>>, store_dir: Seq<char>) -> Seq<
    Seq<char>,
> {
    references.map_values(|r: Seq<char>| store_dir + "/"@ + r)
}

/// What a signature of the object covers.
pub open spec fn fingerprint_text(obj: ObjectView, store_dir: Seq<char>) -> Seq<char> {
    "1;"@ + obj.store_path + ";"@ + obj.nar_hash + ";"@ + decimal_int(obj.nar_size as int) + ";"@
        + joined(reference_paths(sorted_texts(obj.references), store_dir), ","@)
}

/// The order in which an object lists its references does not show in what a
/// signature covers.
pub proof fn fingerprint_ignores_reference_order(a: ObjectView, b: ObjectView, store_dir: Seq<char>)
    requires
        a.store_path == b.store_path,
        a.nar_hash == b.nar_hash,
        a.nar_size == b.nar_size,
        a.references.to_multiset() == b.references.to_multiset(),
    ensures
        fingerprint_text(a, store_dir) == fingerprint_text(b, store_dir),
{
    text_leq_total();
    a.references.lemma_sort_by_ensures(text_leq());
    sorted_texts_unique(b.references, sorted_texts(a.references));
}

/// What a signature of the object covers: references are full store paths,
/// sorted. Nix holds them in a sorted set, so that a signature over any other
/// order is a bad one to it.
pub fn fingerprint(obj: &Object, store_dir: &str) -> (r: String)
    ensures
        r@ == fingerprint_text(obj@, store_dir@),
{
    let sorted = sort_texts(&obj.references);
    let mut paths: Vec<String> = Vec::new();
    let mut i: usize = 0;
    while i < sorted.len()
        invariant
            i <= sorted@.len(),
            paths@.len() == i,
            forall|k: int|
                0 <= k < i ==> (#[trigger] paths@[k])@ == store_dir@ + "/"@ + sorted@[k]@,
        decreases sorted@.len() - i,
    {
        paths.push(store_dir.to_owned().concat("/").concat(sorted[i].as_str()));
        i += 1;
    }
    assert(texts(paths@) =~= reference_paths(texts(sorted@), store_dir@));
    let refs = join(&paths, ",");
    "1;".to_owned().concat(obj.store_path.as_str()).concat(";").concat(
        obj.nar_hash.as_str(),
    ).concat(";").concat(show_signed(obj.nar_size).as_str()).concat(";").concat(refs.as_str())
}

/// The public half of the Ed25519 key that `seed` stands for.
pub uninterp spec fn ed25519_public(seed: Seq<u8>) -> Seq<u8>;

/// The Ed25519 signature of `message` under the key that `seed` stands for.
pub uninterp spec fn ed25519_signature(seed: Seq<u8>, message: Seq<u8>) -> Seq<u8>;

/// `ed25519_dalek::SigningKey::verifying_key`: the 32 bytes of the public key.
#[verifier::external_body]
pub(crate) fn public_of(seed: &[u8; 32]) -> (r: Vec<u8>)
    ensures
        r@ == ed25519_public(seed@),
        r@.len() == 32,
{
    ed25519_dalek::SigningKey::from_bytes(seed).verifying_key().to_bytes().to_vec()
}

/// `ed25519_dalek::SigningKey::sign`: the 64 bytes of the signature, which the
/// key and the message alone determine.
#[verifier::external_body]
fn signature_of(seed: &[u8; 32], message: &[u8]) -> (r: Vec<u8>)
    ensures
        r@ == ed25519_signature(seed@, message@),
        r@.len() == 64,
{
    ed25519_dalek::SigningKey::from_bytes(seed).sign(message).to_bytes().to_vec()
}

/// An array of the slice's bytes.
fn seed_array(bytes: &[u8]) -> (r: [u8; 32])
    requires
        bytes@.len() == 32,
    ensures
        r@ == bytes@,
{
    let mut r: [u8; 32] = [0u8; 32];
    let mut i: usize = 0;
    while i < 32
        invariant
            i <= 32,
            bytes@.len() == 32,
            forall|k: int| 0 <= k < i ==> #[trigger] r@[k] == bytes@[k],
        decreases 32 - i,
    {
        r[i] = bytes[i];
        i += 1;
    }
    assert(r@ =~= bytes@);
    r
}

/// Why a signing key file was refused.
#[derive(Debug, PartialEq, Eq)]
pub enum KeyError {
    /// It has no colon.
    Malformed,
    /// What stands behind the colon is not base64.
    NotBase64,
    /// It holds fewer than 32 bytes.
    TooShort,
}

impl KeyError {
    /// What the operator is told.
    pub open spec fn text(self) -> Seq<char> {
        match self {
            KeyError::Malformed => "malformed signing key: expected `name:base64`"@,
            KeyError::NotBase64 => "signing key is not valid base64"@,
            KeyError::TooShort => "signing key is too short"@,
        }
    }

    /// What the operator is told.
    pub fn message(&self) -> (r: String)
        ensures
            r@ == self.text(),
    {
        match self {
            KeyError::Malformed => "malformed signing key: expected `name:base64`".to_owned(),
            KeyError::NotBase64 => "signing key is not valid base64".to_owned(),
            KeyError::TooShort => "signing key is too short".to_owned(),
        }
    }
}

/// A signing key, as `nix key generate-secret` writes it.
pub struct SigningKeyFile {
    /// The key's name.
    pub name: String,
    /// The secret half.
    pub seed: [u8; 32],
}

/// What a [`SigningKeyFile`] holds.
#[verifier::ext_equal]
pub struct KeyView {
    /// The key's name.
    pub name: Seq<char>,
    /// The secret half.
    pub seed: Seq<u8>,
}

impl View for SigningKeyFile {
    type V = KeyView;

    open spec fn view(&self) -> KeyView {
        KeyView { name: self.name@, seed: self.seed@ }
    }
}

/// The key that the file holds: a name, a colon and in base64 the secret half
/// followed by the public one.
pub open spec fn key_in_file(contents: Seq<char>) -> Result<KeyView, KeyError> {
    match cut_at(trimmed(contents), ':') {
        None => Err(KeyError::Malformed),
        Some((name, text)) => match decoded(text) {
            None => Err(KeyError::NotBase64),
            Some(bytes) => if bytes.len() < 32 {
                Err(KeyError::TooShort)
            } else {
                Ok(KeyView { name, seed: bytes.take(32) })
            },
        },
    }
}

/// The public half as it stands in `trusted-public-keys`.
pub open spec fn public_key_text(key: KeyView) -> Seq<char> {
    key.name + ":"@ + standard_base64(ed25519_public(key.seed))
}

/// The signature of `text` as it stands in a narinfo.
pub open spec fn signature_text(key: KeyView, text: Seq<char>) -> Seq<char> {
    key.name + ":"@ + standard_base64(ed25519_signature(key.seed, encode_utf8(text)))
}

impl SigningKeyFile {
    /// Reads the secret-key format of Nix: `<name>:<base64 of the key pair>`.
    pub fn parse(contents: &str) -> (r: Result<Self, KeyError>)
        ensures
            match r {
                Ok(key) => key_in_file(contents@) == Ok::<KeyView, KeyError>(key@),
                Err(e) => key_in_file(contents@) == Err::<KeyView, KeyError>(e),
            },
    {
        let text = trim(contents);
        match split_once(text, ':') {
            None => Err(KeyError::Malformed),
            Some((name, b64)) => match from_base64(b64) {
                Err(_) => Err(KeyError::NotBase64),
                Ok(bytes) => {
                    proof {
                        decoding_undoes_encoding(bytes@);
                    }
                    if bytes.len() < 32 {
                        return Err(KeyError::TooShort);
                    }
                    let (head, _) = bytes.as_slice().split_at(32);
                    let seed = seed_array(head);
                    let key = SigningKeyFile { name: name.to_owned(), seed };
                    assert(key@ =~= (KeyView { name: name@, seed: bytes@.take(32) }));
                    Ok(key)
                },
            },
        }
    }

    /// The public half, `<name>:<base64>`.
    pub fn public_key(&self) -> (r: String)
        ensures
            r@ == public_key_text(self@),
    {
        let public = public_of(&self.seed);
        self.name.clone().concat(":").concat(to_base64(public.as_slice()).as_str())
    }

    fn sign(&self, text: &str) -> (r: String)
        ensures
            r@ == signature_text(self@, text@),
    {
        let signature = signature_of(&self.seed, text.as_bytes());
        self.name.clone().concat(":").concat(to_base64(signature.as_slice()).as_str())
    }
}

/// Reads the key files in order. The first that is none fails them all.
pub fn parse_keys(files: &Vec<String>) -> (r: Result<Vec<SigningKeyFile>, KeyError>)
    ensures
        match r {
            Ok(keys) => {
                &&& keys@.len() == files@.len()
                &&& forall|i: int|
                    0 <= i < keys@.len() ==> key_in_file(files@[i]@) == Ok::<KeyView, KeyError>(
                        (#[trigger] keys@[i])@,
                    )
            },
            Err(e) => exists|i: int|
                {
                    &&& 0 <= i < files@.len()
                    &&& key_in_file((#[trigger] files@[i])@) == Err::<KeyView, KeyError>(e)
                    &&& forall|k: int|
                        0 <= k < i ==> key_in_file((#[trigger] files@[k])@) is Ok
                },
        },
{
    let mut keys: Vec<SigningKeyFile> = Vec::new();
    let mut i: usize = 0;
    while i < files.len()
        invariant
            i <= files@.len(),
            keys@.len() == i,
            forall|k: int|
                0 <= k < i ==> key_in_file(files@[k]@) == Ok::<KeyView, KeyError>(
                    (#[trigger] keys@[k])@,
                ),
            forall|k: int| 0 <= k < i ==> key_in_file((#[trigger] files@[k])@) is Ok,
        decreases files@.len() - i,
    {
        match SigningKeyFile::parse(files[i].as_str()) {
            Ok(key) => {
                keys.push(key);
            },
            Err(e) => {
                assert(key_in_file(files@[i as int]@) == Err::<KeyView, KeyError>(e));
                return Err(e);
            },
        }
        i += 1;
    }
    Ok(keys)
}

/// Nothing is configured to sign with.
#[derive(Debug, PartialEq, Eq)]
pub struct NoSigningKeys;

impl NoSigningKeys {
    /// What the operator is told.
    pub fn message(&self) -> (r: String)
        ensures
            r@ == "no signing keys configured"@,
    {
        "no signing keys configured".to_owned()
    }
}

/// Signs the object with every key, so that one key can replace another while
/// both are trusted. An object is never stored unsigned.
pub fn sign(obj: &Object, store_dir: &str, keys: &Vec<SigningKeyFile>) -> (r: Result<
    Vec<String>,
    NoSigningKeys,
>)
    ensures
        r is Err <==> keys@.len() == 0,
        r matches Ok(sigs) ==> {
            &&& sigs@.len() == keys@.len()
            &&& forall|i: int|
                0 <= i < sigs@.len() ==> (#[trigger] sigs@[i])@ == signature_text(
                    keys@[i]@,
                    fingerprint_text(obj@, store_dir@),
                )
        },
{
    if keys.len() == 0 {
        return Err(NoSigningKeys);
    }
    let text = fingerprint(obj, store_dir);
    let mut sigs: Vec<String> = Vec::new();
    let mut i: usize = 0;
    while i < keys.len()
        invariant
            i <= keys@.len(),
            text@ == fingerprint_text(obj@, store_dir@),
            sigs@.len() == i,
            forall|k: int|
                0 <= k < i ==> (#[trigger] sigs@[k])@ == signature_text(keys@[k]@, text@),
        decreases keys@.len() - i,
    {
        sigs.push(keys[i].sign(text.as_str()));
        i += 1;
    }
    Ok(sigs)
}

/// One line of a narinfo.
pub open spec fn field(name: Seq<char>, value: Seq<char>) -> Seq<char> {
    name + ": "@ + value + "\n"@
}

/// The signature lines of a narinfo.
pub open spec fn sig_lines(sigs: Seq<Seq<char>>) -> Seq<char>
    decreases sigs.len(),
{
    if sigs.len() == 0 {
        Seq::empty()
    } else {
        sig_lines(sigs.drop_last()) + field("Sig"@, sigs.last())
    }
}

/// The narinfo of an object.
pub open spec fn narinfo_text(obj: ObjectView) -> Seq<char> {
    field("StorePath"@, obj.store_path) + field(
        "URL"@,
        crate::storage::blob_key(obj.store_path_hash),
    ) + field("Compression"@, "zstd"@) + field("FileHash"@, obj.file_hash) + field(
        "FileSize"@,
        decimal_int(obj.file_size as int),
    ) + field("NarHash"@, obj.nar_hash) + field("NarSize"@, decimal_int(obj.nar_size as int))
        + field("References"@, joined(obj.references, " "@)) + (match obj.deriver {
        Some(d) => field("Deriver"@, d),
        None => Seq::empty(),
    }) + (match obj.ca {
        Some(c) => field("CA"@, c),
        None => Seq::empty(),
    }) + sig_lines(obj.sigs)
}

/// The values behind `name` in a narinfo, read line by line.
pub open spec fn values_of(text: Seq<char>, name: Seq<char>) -> Seq<Seq<char>>
    decreases text.len(),
{
    let n = first_of(text, '\n');
    if 0 <= n < text.len() {
        let line = text.take(n);
        let rest = values_of(text.skip(n + 1), name);
        if (name + ": "@).is_prefix_of(line) {
            seq![line.skip(name.len() + 2int)] + rest
        } else {
            rest
        }
    } else {
        Seq::empty()
    }
}

/// The text stays on one line.
pub open spec fn one_line(text: Seq<char>) -> bool {
    forall|k: int| 0 <= k < text.len() ==> text[k] != '\n'
}

/// The text can stand in front of the colon of a line.
pub open spec fn is_name(name: Seq<char>) -> bool {
    forall|k: int| 0 <= k < name.len() ==> name[k] != ':' && name[k] != '\n'
}

/// Nothing in the object breaks a line.
pub open spec fn fits_lines(obj: ObjectView) -> bool {
    &&& one_line(obj.store_path)
    &&& one_line(obj.store_path_hash)
    &&& one_line(obj.file_hash)
    &&& one_line(obj.nar_hash)
    &&& forall|i: int| 0 <= i < obj.references.len() ==> one_line(#[trigger] obj.references[i])
    &&& obj.deriver matches Some(d) ==> one_line(d)
    &&& obj.ca matches Some(c) ==> one_line(c)
    &&& forall|i: int| 0 <= i < obj.sigs.len() ==> one_line(#[trigger] obj.sigs[i])
}

/// One line is read.
proof fn line_is_read(name: Seq<char>, value: Seq<char>, rest: Seq<char>, wanted: Seq<char>)
    requires
        is_name(name),
        is_name(wanted),
        one_line(value),
    ensures
        values_of(field(name, value) + rest, wanted) == if name == wanted {
            seq![value] + values_of(rest, wanted)
        } else {
            values_of(rest, wanted)
        },
{
    reveal_strlit(": ");
    reveal_strlit("\n");
    let text = field(name, value) + rest;
    let line = name + ": "@ + value;
    let n = line.len() as int;
    assert forall|k: int| 0 <= k < n implies text[k] != '\n' by {
        assert(text[k] == line[k]);
        if k < name.len() {
            assert(line[k] == name[k]);
        } else if k >= name.len() + 2 {
            assert(line[k] == value[k - name.len() - 2]);
        } else {
            assert(line[k] == ": "@[k - name.len()]);
        }
    }
    assert(text[n] == '\n');
    first_of_is(text, '\n', n);
    assert(text.take(n) =~= line);
    assert(text.skip(n + 1) =~= rest);
    let front = wanted + ": "@;
    if name == wanted {
        assert(front =~= line.subrange(0, front.len() as int));
        assert(line.skip(wanted.len() + 2int) =~= value);
    } else if front.is_prefix_of(line) {
        assert(front[wanted.len() as int] == ':');
        assert forall|k: int| 0 <= k < front.len() implies front[k] == line[k] by {
            assert(front[k] == line.subrange(0, front.len() as int)[k]);
        }
        if wanted.len() < name.len() {
            assert(line[wanted.len() as int] == name[wanted.len() as int]);
        } else if wanted.len() > name.len() {
            assert(line[name.len() as int] == ':');
            assert(front[name.len() as int] == wanted[name.len() as int]);
        } else {
            assert forall|k: int| 0 <= k < name.len() implies name[k] == wanted[k] by {
                assert(front[k] == line[k]);
            }
            assert(name =~= wanted);
        }
        assert(false);
    }
}

/// The signature lines are read.
proof fn sigs_are_read(sigs: Seq<Seq<char>>, wanted: Seq<char>)
    requires
        is_name(wanted),
        forall|i: int| 0 <= i < sigs.len() ==> one_line(#[trigger] sigs[i]),
    ensures
        values_of(sig_lines(sigs), wanted) == if wanted == "Sig"@ {
            sigs
        } else {
            Seq::empty()
        },
    decreases sigs.len(),
{
    reveal_strlit("Sig");
    if sigs.len() == 0 {
        assert(sigs =~= Seq::<Seq<char>>::empty());
    } else {
        let rest = sigs.drop_first();
        sig_lines_from_the_front(sigs);
        sigs_are_read(rest, wanted);
        line_is_read("Sig"@, sigs[0], sig_lines(rest), wanted);
        assert(seq![sigs[0]] + rest =~= sigs);
    }
}

/// The first signature stands in the first line.
proof fn sig_lines_from_the_front(sigs: Seq<Seq<char>>)
    requires
        sigs.len() > 0,
    ensures
        sig_lines(sigs) == field("Sig"@, sigs[0]) + sig_lines(sigs.drop_first()),
    decreases sigs.len(),
{
    let rest = sigs.drop_first();
    if sigs.len() == 1 {
        assert(sig_lines(sigs.drop_last()) =~= Seq::empty());
        assert(sig_lines(rest) =~= Seq::empty());
        assert(sig_lines(sigs) =~= field("Sig"@, sigs[0]) + sig_lines(rest));
    } else {
        sig_lines_from_the_front(sigs.drop_last());
        assert(sigs.drop_last().drop_first() =~= rest.drop_last());
        assert(sig_lines(sigs) =~= field("Sig"@, sigs[0]) + sig_lines(rest));
    }
}

/// `value`, where it is there.
pub open spec fn if_there(value: Option<Seq<char>>) -> Seq<Seq<char>> {
    match value {
        Some(v) => seq![v],
        None => Seq::empty(),
    }
}

/// `value`, where the line is the wanted one.
spec fn if_wanted(name: Seq<char>, wanted: Seq<char>, value: Seq<char>) -> Seq<Seq<char>> {
    if name == wanted {
        seq![value]
    } else {
        Seq::empty()
    }
}

/// A number stays on its line.
proof fn numbers_fit_lines(n: int)
    ensures
        one_line(decimal_int(n)),
{
    let m = if n < 0 {
        (-n) as nat
    } else {
        n as nat
    };
    decimal_reads_back(m);
    let d = decimal(m);
    assert forall|k: int| 0 <= k < d.len() implies d[k] != '\n' by {
        assert(is_digit(d[k]));
    }
}

/// What was joined by blanks stays on its line.
proof fn joined_fit_lines(parts: Seq<Seq<char>>)
    requires
        forall|i: int| 0 <= i < parts.len() ==> one_line(#[trigger] parts[i]),
    ensures
        one_line(joined(parts, " "@)),
    decreases parts.len(),
{
    reveal_strlit(" ");
    if parts.len() > 1 {
        joined_fit_lines(parts.drop_last());
        assert(one_line(parts[parts.len() - 1]));
    } else if parts.len() == 1 {
        assert(one_line(parts[0]));
    }
}

/// What is read of the first lines of a narinfo.
proof fn head_is_read(obj: ObjectView, rest: Seq<char>, wanted: Seq<char>)
    requires
        fits_lines(obj),
        is_name(wanted),
    ensures
        values_of(
            field("StorePath"@, obj.store_path) + (field(
                "URL"@,
                "nar/"@ + obj.store_path_hash + ".nar.zst"@,
            ) + (field("Compression"@, "zstd"@) + (field("FileHash"@, obj.file_hash) + (field(
                "FileSize"@,
                decimal_int(obj.file_size as int),
            ) + rest)))),
            wanted,
        ) == if_wanted("StorePath"@, wanted, obj.store_path) + (if_wanted(
            "URL"@,
            wanted,
            "nar/"@ + obj.store_path_hash + ".nar.zst"@,
        ) + (if_wanted("Compression"@, wanted, "zstd"@) + (if_wanted(
            "FileHash"@,
            wanted,
            obj.file_hash,
        ) + (if_wanted("FileSize"@, wanted, decimal_int(obj.file_size as int)) + values_of(
            rest,
            wanted,
        ))))),
{
    reveal_strlit("StorePath");
    reveal_strlit("URL");
    reveal_strlit("Compression");
    reveal_strlit("FileHash");
    reveal_strlit("FileSize");
    reveal_strlit("zstd");
    reveal_strlit("nar/");
    reveal_strlit(".nar.zst");
    let url = "nar/"@ + obj.store_path_hash + ".nar.zst"@;
    assert(one_line(url));
    numbers_fit_lines(obj.file_size as int);
    let r5 = rest;
    let r4 = field("FileSize"@, decimal_int(obj.file_size as int)) + r5;
    let r3 = field("FileHash"@, obj.file_hash) + r4;
    let r2 = field("Compression"@, "zstd"@) + r3;
    let r1 = field("URL"@, url) + r2;
    line_is_read("FileSize"@, decimal_int(obj.file_size as int), r5, wanted);
    line_is_read("FileHash"@, obj.file_hash, r4, wanted);
    line_is_read("Compression"@, "zstd"@, r3, wanted);
    line_is_read("URL"@, url, r2, wanted);
    line_is_read("StorePath"@, obj.store_path, r1, wanted);
    let none = Seq::<Seq<char>>::empty();
    assert(none + values_of(r5, wanted) =~= values_of(r5, wanted));
    assert(none + values_of(r4, wanted) =~= values_of(r4, wanted));
    assert(none + values_of(r3, wanted) =~= values_of(r3, wanted));
    assert(none + values_of(r2, wanted) =~= values_of(r2, wanted));
    assert(none + values_of(r1, wanted) =~= values_of(r1, wanted));
}

/// What is read of the lines of a narinfo from the hash of the NAR on.
proof fn tail_is_read(obj: ObjectView, wanted: Seq<char>)
    requires
        fits_lines(obj),
        is_name(wanted),
    ensures
        values_of(narinfo_tail(obj), wanted) == if_wanted("NarHash"@, wanted, obj.nar_hash) + (
        if_wanted("NarSize"@, wanted, decimal_int(obj.nar_size as int)) + (if_wanted(
            "References"@,
            wanted,
            joined(obj.references, " "@),
        ) + ((if wanted == "Deriver"@ {
            if_there(obj.deriver)
        } else {
            Seq::empty()
        }) + ((if wanted == "CA"@ {
            if_there(obj.ca)
        } else {
            Seq::empty()
        }) + (if wanted == "Sig"@ {
            obj.sigs
        } else {
            Seq::empty()
        }))))),
{
    reveal_strlit("NarHash");
    reveal_strlit("NarSize");
    reveal_strlit("References");
    reveal_strlit("Deriver");
    reveal_strlit("CA");
    numbers_fit_lines(obj.nar_size as int);
    joined_fit_lines(obj.references);
    sigs_are_read(obj.sigs, wanted);
    let none = Seq::<Seq<char>>::empty();
    let r5 = sig_lines(obj.sigs);
    let r4 = optional_field("CA"@, obj.ca) + r5;
    let r3 = optional_field("Deriver"@, obj.deriver) + r4;
    let r2 = field("References"@, joined(obj.references, " "@)) + r3;
    let r1 = field("NarSize"@, decimal_int(obj.nar_size as int)) + r2;
    match obj.ca {
        Some(c) => line_is_read("CA"@, c, r5, wanted),
        None => {
            assert(r4 =~= r5);
        },
    }
    match obj.deriver {
        Some(d) => line_is_read("Deriver"@, d, r4, wanted),
        None => {
            assert(r3 =~= r4);
        },
    }
    line_is_read("References"@, joined(obj.references, " "@), r3, wanted);
    line_is_read("NarSize"@, decimal_int(obj.nar_size as int), r2, wanted);
    line_is_read("NarHash"@, obj.nar_hash, r1, wanted);
    assert(none + values_of(r5, wanted) =~= values_of(r5, wanted));
    assert(none + values_of(r4, wanted) =~= values_of(r4, wanted));
    assert(none + values_of(r3, wanted) =~= values_of(r3, wanted));
    assert(none + values_of(r2, wanted) =~= values_of(r2, wanted));
    assert(none + values_of(r1, wanted) =~= values_of(r1, wanted));
}

/// A line that may be missing.
spec fn optional_field(name: Seq<char>, value: Option<Seq<char>>) -> Seq<char> {
    match value {
        Some(v) => field(name, v),
        None => Seq::empty(),
    }
}

/// The lines of a narinfo from the hash of the NAR on.
spec fn narinfo_tail(obj: ObjectView) -> Seq<char> {
    field("NarHash"@, obj.nar_hash) + (field("NarSize"@, decimal_int(obj.nar_size as int)) + (field(
        "References"@,
        joined(obj.references, " "@),
    ) + (optional_field("Deriver"@, obj.deriver) + (optional_field("CA"@, obj.ca) + sig_lines(
        obj.sigs,
    )))))
}

/// Where the brackets stand does not matter.
proof fn regrouped(
    a: Seq<char>,
    b: Seq<char>,
    c: Seq<char>,
    d: Seq<char>,
    e: Seq<char>,
    f: Seq<char>,
    g: Seq<char>,
    h: Seq<char>,
    i: Seq<char>,
    j: Seq<char>,
    k: Seq<char>,
)
    ensures
        a + b + c + d + e + f + g + h + i + j + k == a + (b + (c + (d + (e + (f + (g + (h + (i + (j + k))))))))),
{
    grouped(a + b + c + d + e + f + g + h + i, j, k);
    grouped(a + b + c + d + e + f + g + h, i, j + k);
    grouped(a + b + c + d + e + f + g, h, i + (j + k));
    grouped(a + b + c + d + e + f, g, h + (i + (j + k)));
    grouped(a + b + c + d + e, f, g + (h + (i + (j + k))));
    grouped(a + b + c + d, e, f + (g + (h + (i + (j + k)))));
    grouped(a + b + c, d, e + (f + (g + (h + (i + (j + k))))));
    grouped(a + b, c, d + (e + (f + (g + (h + (i + (j + k)))))));
    grouped(a, b, c + (d + (e + (f + (g + (h + (i + (j + k))))))));
}

/// Where the brackets stand does not matter.
proof fn grouped(a: Seq<char>, b: Seq<char>, c: Seq<char>)
    ensures
        a + b + c == a + (b + c),
{
    assert(a + b + c =~= a + (b + c));
}

/// What is read of a narinfo.
proof fn narinfo_is_read(obj: ObjectView, wanted: Seq<char>)
    requires
        fits_lines(obj),
        is_name(wanted),
    ensures
        values_of(narinfo_text(obj), wanted) == if_wanted("StorePath"@, wanted, obj.store_path) + (
        if_wanted("URL"@, wanted, "nar/"@ + obj.store_path_hash + ".nar.zst"@) + (if_wanted(
            "Compression"@,
            wanted,
            "zstd"@,
        ) + (if_wanted("FileHash"@, wanted, obj.file_hash) + (if_wanted(
            "FileSize"@,
            wanted,
            decimal_int(obj.file_size as int),
        ) + values_of(narinfo_tail(obj), wanted))))),
{
    head_is_read(obj, narinfo_tail(obj), wanted);
    regrouped(
        field("StorePath"@, obj.store_path),
        field("URL"@, "nar/"@ + obj.store_path_hash + ".nar.zst"@),
        field("Compression"@, "zstd"@),
        field("FileHash"@, obj.file_hash),
        field("FileSize"@, decimal_int(obj.file_size as int)),
        field("NarHash"@, obj.nar_hash),
        field("NarSize"@, decimal_int(obj.nar_size as int)),
        field("References"@, joined(obj.references, " "@)),
        optional_field("Deriver"@, obj.deriver),
        optional_field("CA"@, obj.ca),
        sig_lines(obj.sigs),
    );
}

/// A narinfo read line by line gives back the object: behind each name stands
/// the value that belongs to it, once, and behind `Sig` every signature.
pub proof fn narinfo_reads_back(obj: ObjectView)
    requires
        fits_lines(obj),
    ensures
        values_of(narinfo_text(obj), "StorePath"@) == seq![obj.store_path],
        values_of(narinfo_text(obj), "URL"@) == seq![
            "nar/"@ + obj.store_path_hash + ".nar.zst"@,
        ],
        values_of(narinfo_text(obj), "Compression"@) == seq!["zstd"@],
        values_of(narinfo_text(obj), "FileHash"@) == seq![obj.file_hash],
        values_of(narinfo_text(obj), "FileSize"@) == seq![decimal_int(obj.file_size as int)],
        values_of(narinfo_text(obj), "NarHash"@) == seq![obj.nar_hash],
        values_of(narinfo_text(obj), "NarSize"@) == seq![decimal_int(obj.nar_size as int)],
        values_of(narinfo_text(obj), "References"@) == seq![joined(obj.references, " "@)],
        values_of(narinfo_text(obj), "Deriver"@) == if_there(obj.deriver),
        values_of(narinfo_text(obj), "CA"@) == if_there(obj.ca),
        values_of(narinfo_text(obj), "Sig"@) == obj.sigs,
{
    reveal_strlit("StorePath");
    reveal_strlit("URL");
    reveal_strlit("Compression");
    reveal_strlit("FileHash");
    reveal_strlit("FileSize");
    reveal_strlit("NarHash");
    reveal_strlit("NarSize");
    reveal_strlit("References");
    reveal_strlit("Deriver");
    reveal_strlit("CA");
    reveal_strlit("Sig");
    assert("FileHash"@[4] != "FileSize"@[4]);
    assert("NarHash"@[3] != "NarSize"@[3]);
    assert("Deriver"@[0] != "NarHash"@[0]);
    assert("URL"@[0] != "Sig"@[0]);
    let t = narinfo_text(obj);
    assert(values_of(t, "StorePath"@) =~= seq![obj.store_path]) by {
        narinfo_is_read(obj, "StorePath"@);
        tail_is_read(obj, "StorePath"@);
    }
    assert(values_of(t, "URL"@) =~= seq![
        "nar/"@ + obj.store_path_hash + ".nar.zst"@,
    ]) by {
        narinfo_is_read(obj, "URL"@);
        tail_is_read(obj, "URL"@);
    }
    assert(values_of(t, "Compression"@) =~= seq!["zstd"@]) by {
        narinfo_is_read(obj, "Compression"@);
        tail_is_read(obj, "Compression"@);
    }
    assert(values_of(t, "FileHash"@) =~= seq![obj.file_hash]) by {
        narinfo_is_read(obj, "FileHash"@);
        tail_is_read(obj, "FileHash"@);
    }
    assert(values_of(t, "FileSize"@) =~= seq![decimal_int(obj.file_size as int)]) by {
        narinfo_is_read(obj, "FileSize"@);
        tail_is_read(obj, "FileSize"@);
    }
    assert(values_of(t, "NarHash"@) =~= seq![obj.nar_hash]) by {
        narinfo_is_read(obj, "NarHash"@);
        tail_is_read(obj, "NarHash"@);
    }
    assert(values_of(t, "NarSize"@) =~= seq![decimal_int(obj.nar_size as int)]) by {
        narinfo_is_read(obj, "NarSize"@);
        tail_is_read(obj, "NarSize"@);
    }
    assert(values_of(t, "References"@) =~= seq![joined(obj.references, " "@)]) by {
        narinfo_is_read(obj, "References"@);
        tail_is_read(obj, "References"@);
    }
    assert(values_of(t, "Deriver"@) =~= if_there(obj.deriver)) by {
        narinfo_is_read(obj, "Deriver"@);
        tail_is_read(obj, "Deriver"@);
    }
    assert(values_of(t, "CA"@) =~= if_there(obj.ca)) by {
        narinfo_is_read(obj, "CA"@);
        tail_is_read(obj, "CA"@);
    }
    assert(values_of(t, "Sig"@) =~= obj.sigs) by {
        narinfo_is_read(obj, "Sig"@);
        tail_is_read(obj, "Sig"@);
    }
}

/// The references that a narinfo lists: its words between single blanks.
pub open spec fn references_read(text: Seq<char>) -> Seq<Seq<char>> {
    let line = values_of(text, "References"@)[0];
    if line.len() == 0 {
        Seq::empty()
    } else {
        pieces(line, ' ')
    }
}

/// The references that a narinfo lists are those of the object.
proof fn references_read_back(obj: ObjectView)
    requires
        fits_lines(obj),
        forall|i: int| 0 <= i < obj.references.len() ==> (#[trigger] obj.references[i]).len() > 0,
        forall|i: int, k: int|
            0 <= i < obj.references.len() && 0 <= k < obj.references[i].len()
                ==> #[trigger] obj.references[i][k] != ' ',
    ensures
        references_read(narinfo_text(obj)) == obj.references,
{
    narinfo_reads_back(obj);
    let refs = obj.references;
    let line = joined(refs, " "@);
    reveal_strlit(" ");
    assert(" "@ =~= seq![' ']);
    if refs.len() == 0 {
        assert(refs =~= Seq::<Seq<char>>::empty());
    } else {
        joined_texts_come_apart(refs, ' ');
        if refs.len() == 1 {
            assert(line == refs[0]);
        } else {
            assert(line.len() > 0);
        }
    }
}

/// Who reads a narinfo can check its signatures by it alone. Its sizes are read
/// as the numbers that they are, its references as the names that they are. The
/// store path, the hash and the size of the NAR and the references that stand in
/// it, these as full paths in ascending order, make up the text that each of its
/// signatures covers, whichever key made it.
pub proof fn served_signatures_cover_what_is_served(
    obj: ObjectView,
    store_dir: Seq<char>,
    keys: Seq<KeyView>,
)
    requires
        fits_lines(obj),
        forall|i: int| 0 <= i < obj.references.len() ==> (#[trigger] obj.references[i]).len() > 0,
        forall|i: int, k: int|
            0 <= i < obj.references.len() && 0 <= k < obj.references[i].len()
                ==> #[trigger] obj.references[i][k] != ' ',
        obj.sigs.len() == keys.len(),
        forall|i: int|
            0 <= i < keys.len() ==> #[trigger] obj.sigs[i] == signature_text(
                keys[i],
                fingerprint_text(obj, store_dir),
            ),
    ensures
        references_read(narinfo_text(obj)) == obj.references,
        parse_signed(values_of(narinfo_text(obj), "NarSize"@)[0]) == Some(obj.nar_size as int),
        parse_signed(values_of(narinfo_text(obj), "FileSize"@)[0]) == Some(obj.file_size as int),
        exists|sorted: Seq<Seq<char>>|
            {
                let t = narinfo_text(obj);
                let covered = "1;"@ + values_of(t, "StorePath"@)[0] + ";"@ + values_of(
                    t,
                    "NarHash"@,
                )[0] + ";"@ + values_of(t, "NarSize"@)[0] + ";"@ + joined(
                    Seq::new(
                        sorted.len(),
                        |i: int| store_dir + "/"@ + sorted[i],
                    ),
                    ","@,
                );
                &&& sorted.to_multiset() == references_read(t).to_multiset()
                &&& #[trigger] ascending(sorted)
                &&& values_of(t, "Sig"@).len() == keys.len()
                &&& forall|i: int|
                    0 <= i < keys.len() ==> #[trigger] values_of(t, "Sig"@)[i] == keys[i].name
                        + ":"@ + standard_base64(
                        ed25519_signature(keys[i].seed, encode_utf8(covered)),
                    )
            },
{
    narinfo_reads_back(obj);
    references_read_back(obj);
    decimal_int_reads_back(obj.nar_size);
    decimal_int_reads_back(obj.file_size);
    text_leq_total();
    obj.references.lemma_sort_by_ensures(text_leq());
    let sorted = sorted_texts(obj.references);
    assert(ascending(sorted)) by {
        assert forall|i: int, j: int| 0 <= i < j < sorted.len() implies text_le(
            #[trigger] sorted[i],
            #[trigger] sorted[j],
        ) by {
            assert(text_leq()(sorted[i], sorted[j]));
        }
    }
    assert(Seq::new(sorted.len(), |i: int| store_dir + "/"@ + sorted[i]) =~= reference_paths(
        sorted,
        store_dir,
    ));
}

/// No text stands behind one that it comes before.
pub open spec fn ascending(texts: Seq<Seq<char>>) -> bool {
    forall|i: int, j: int|
        0 <= i < j < texts.len() ==> text_le(#[trigger] texts[i], #[trigger] texts[j])
}

/// Appends one line.
fn push_field(out: &mut String, name: &str, value: &str)
    ensures
        final(out)@ == old(out)@ + field(name@, value@),
{
    let ghost before = out@;
    out.append(name);
    out.append(": ");
    out.append(value);
    out.append("\n");
    assert(out@ =~= before + field(name@, value@));
}

/// The narinfo of an object, as it is served.
pub fn render(obj: &Object) -> (r: String)
    ensures
        r@ == narinfo_text(obj@),
{
    let mut out = String::new();
    push_field(&mut out, "StorePath", obj.store_path.as_str());
    push_field(
        &mut out,
        "URL",
        crate::storage::key_for(obj.store_path_hash.as_str()).as_str(),
    );
    push_field(&mut out, "Compression", "zstd");
    push_field(&mut out, "FileHash", obj.file_hash.as_str());
    push_field(&mut out, "FileSize", show_signed(obj.file_size).as_str());
    push_field(&mut out, "NarHash", obj.nar_hash.as_str());
    push_field(&mut out, "NarSize", show_signed(obj.nar_size).as_str());
    push_field(&mut out, "References", join(&obj.references, " ").as_str());
    assert(Seq::<char>::empty() + field("StorePath"@, obj.store_path@) =~= field(
        "StorePath"@,
        obj.store_path@,
    ));
    match &obj.deriver {
        Some(d) => push_field(&mut out, "Deriver", d.as_str()),
        None => {},
    }
    match &obj.ca {
        Some(c) => push_field(&mut out, "CA", c.as_str()),
        None => {},
    }
    let ghost head = out@;
    let mut i: usize = 0;
    assert(texts(obj.sigs@).take(0) =~= Seq::<Seq<char>>::empty());
    assert(out@ =~= head + sig_lines(texts(obj.sigs@).take(0)));
    while i < obj.sigs.len()
        invariant
            i <= obj.sigs@.len(),
            out@ == head + sig_lines(texts(obj.sigs@).take(i as int)),
        decreases obj.sigs@.len() - i,
    {
        push_field(&mut out, "Sig", obj.sigs[i].as_str());
        proof {
            let all = texts(obj.sigs@);
            assert(all.take(i as int + 1).drop_last() =~= all.take(i as int));
            assert(out@ =~= head + sig_lines(all.take(i as int + 1)));
        }
        i += 1;
    }
    assert(texts(obj.sigs@).take(i as int) =~= texts(obj.sigs@));
    assert(out@ =~= narinfo_text(obj@));
    out
}

/// What comes out of normalising is always `sha256:` and 52 digits of base 32,
/// and only what begins with `sha256` and its separator is taken at all.
pub proof fn normal_hashes_have_one_form(hash: Seq<char>)
    requires
        normalized_hash(hash) is Some,
    ensures
        normalized_hash(hash)->0.len() == 59,
        normalized_hash(hash)->0.take(7) == "sha256:"@,
        forall|k: int|
            7 <= k < 59 ==> "0123456789abcdfghijklmnpqrsvwxyz"@.contains(
                #[trigger] normalized_hash(hash)->0[k],
            ),
        "sha256:"@.is_prefix_of(hash) || "sha256-"@.is_prefix_of(hash),
{
    reveal_strlit("sha256:");
    let d = digest_part(hash)->0;
    let n = normalized_digest(d)->0;
    if !canonical_digest(d) {
        encoding_is_in_the_alphabet(decoded(d)->0);
    }
    let r = normalized_hash(hash)->0;
    assert(n.len() == 52);
    assert(r.take(7) =~= "sha256:"@);
    assert forall|k: int| 7 <= k < 59 implies "0123456789abcdfghijklmnpqrsvwxyz"@.contains(
        #[trigger] r[k],
    ) by {
        assert(r[k] == n[k - 7]);
        assert(crate::nix_base32::alphabet().contains(n[k - 7]));
    }
}

/// A digest that is already spelled in base 32 keeps its spelling, and bytes of
/// any other number than 32 are no digest.
pub proof fn digests_are_of_32_bytes(b: Seq<u8>)
    requires
        b.len() != 32,
        standard_base64(b).len() != 52,
    ensures
        normalized_hash("sha256-"@ + standard_base64(b)) is None,
        normalized_hash("sha256:"@ + standard_base64(b)) is None,
{
    digest_behind_prefix(standard_base64(b));
    decoding_undoes_encoding(b);
}

/// A hash is refused with what is wrong about it: its digest is named where it is
/// neither of the two spellings, and its length told where it is of other than 32
/// bytes.
pub proof fn refused_digests_are_explained(d: Seq<char>, e: HashError)
    requires
        digest_refused(d, e),
    ensures
        normalized_digest(d) is None,
        !(e is Unsupported),
        e matches HashError::NotADigest { digest } ==> digest@ == d && forall|b: Seq<u8>| #[trigger]
            standard_base64(b) != d,
        e matches HashError::WrongLength { bytes } ==> bytes != 32 && exists|b: Seq<u8>| #[trigger]
            standard_base64(b) == d && b.len() == bytes,
{
    if decoded(d) is Some {
        let b = decoded(d)->0;
        assert(standard_base64(b) == d);
    }
}

/// A key file is refused without a colon, and with fewer than 32 bytes behind it;
/// with more, the first 32 are the secret half.
pub proof fn key_files_hold_a_name_and_a_key(name: Seq<char>, b: Seq<u8>)
    requires
        name.len() > 0,
        !name.contains(':'),
        !white(name[0]),
        !white(name.last()),
        b.len() > 0,
    ensures
        key_in_file(name) == Err::<KeyView, KeyError>(KeyError::Malformed),
        b.len() < 32 ==> key_in_file(name + seq![':'] + standard_base64(b)) == Err::<
            KeyView,
            KeyError,
        >(KeyError::TooShort),
        b.len() >= 32 ==> key_in_file(name + seq![':'] + standard_base64(b)) == Ok::<
            KeyView,
            KeyError,
        >((KeyView { name, seed: b.take(32) })),
{
    let text = standard_base64(b);
    let whole = name + seq![':'] + text;
    base64_ends_black(b);
    let none = Seq::<char>::empty();
    only_white_ends_are_cut(none, name, none);
    assert(none + name + none =~= name);
    assert(whole[0] == name[0]);
    assert(whole.last() == text.last());
    only_white_ends_are_cut(none, whole, none);
    assert(none + whole + none =~= whole);
    texts_are_cut_at_the_first(name, ':', text);
    decoding_undoes_encoding(b);
}

/// The public half is published under the name of the key.
pub proof fn public_keys_carry_the_name(key: KeyView)
    ensures
        public_key_text(key) == key.name + ":"@ + standard_base64(ed25519_public(key.seed)),
{
}

} // verus!
