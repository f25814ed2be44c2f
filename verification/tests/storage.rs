use base64::Engine;
use ed25519_dalek::Verifier;
use garret::db::Object;
use garret::inflight::{InFlight, Kind};
use garret::multipart::{Upload, Want};
use garret::narinfo::{
    fingerprint, normalize_hash, parse_keys, render, sign, HashError, KeyError, SigningKeyFile,
};
use garret::nix_base32::{encode, is_store_hash};
use garret::storage::{
    delete_batches, hash_for, key_for, stale_uploads, OpenUpload, UploadLimits,
};
use sha2::Digest;

#[test]
fn key_layout_is_flat_and_derivable() {
    assert_eq!(key_for("abc"), "nar/abc.nar.zst");
    assert_eq!(hash_for("nar/abc.nar.zst"), Some("abc"));
    assert_eq!(hash_for("nar/.nar.zst"), None, "empty hash is not a match");
    assert_eq!(hash_for("other/abc.nar.zst"), None);
    assert_eq!(hash_for("nar/abc.zst"), None);
}

/// Sends `chunks` through an upload, and returns the sizes of what is stored,
/// the length and the digest.
fn send(chunks: Vec<&'static [u8]>, part_size: usize) -> (Vec<usize>, u64, Vec<u8>) {
    let limits = UploadLimits::new(part_size, 2, 1024);
    let mut upload = Upload::new(limits);
    let mut left = chunks.into_iter();
    let mut sizes = Vec::new();
    let mut on_their_way: Vec<u64> = Vec::new();
    loop {
        match upload.wants() {
            Want::Room => upload.granted(),
            Want::Body => match left.next() {
                Some(chunk) => upload.feed(chunk.to_vec()),
                None => upload.end(),
            },
            Want::Put => {
                let body = upload.take_single();
                if !body.is_empty() {
                    sizes.push(body.len());
                }
            }
            Want::Start => upload.started(),
            Want::Send => {
                let (number, body) = upload.take_part();
                sizes.push(body.len());
                on_their_way.push(number);
                assert!(on_their_way.len() <= 2);
            }
            Want::Arrival => {
                let number = on_their_way.pop().unwrap();
                upload.arrived(number, Some(format!("tag-{number}")));
            }
            Want::Complete => {
                let parts = upload.complete();
                let numbers: Vec<u64> = parts.iter().map(|p| p.0).collect();
                let expected: Vec<u64> = (1..=sizes.len() as u64).collect();
                assert_eq!(numbers, expected);
                assert_eq!(parts[0].1.as_deref(), Some("tag-1"));
            }
            Want::Abort => panic!("nothing failed"),
            Want::Nothing => break,
        }
    }
    let (digest, total) = upload.finish().unwrap();
    (sizes, total, digest)
}

fn parts_of(chunks: Vec<&'static [u8]>, part_size: usize) -> Vec<usize> {
    send(chunks, part_size).0
}

#[test]
fn parts_are_uniform_except_the_last() {
    // Chunk boundaries that do not line up with part boundaries.
    assert_eq!(
        parts_of(vec![b"abcde", b"fghij", b"klm"], 4),
        vec![4, 4, 4, 1]
    );
    // A single chunk larger than several parts.
    assert_eq!(parts_of(vec![b"abcdefghijklm"], 4), vec![4, 4, 4, 1]);
    // Many small chunks.
    assert_eq!(
        parts_of(vec![b"a", b"b", b"c", b"d", b"e"], 2),
        vec![2, 2, 1]
    );
}

#[test]
fn an_exact_multiple_ends_without_a_short_part() {
    // 8 bytes at part size 4: two full parts, then the stream is empty.
    assert_eq!(parts_of(vec![b"abcdefgh"], 4), vec![4, 4]);
}

#[test]
fn an_empty_body_produces_no_parts() {
    assert_eq!(parts_of(vec![], 4), Vec::<usize>::new());
    assert_eq!(parts_of(vec![b""], 4), Vec::<usize>::new());
}

#[test]
fn what_is_stored_is_counted_and_digested() {
    let (_, total, digest) = send(vec![b"abcde", b"fghij", b"klm"], 4);
    assert_eq!(total, 13);
    assert_eq!(digest, sha2::Sha256::digest(b"abcdefghijklm").to_vec());
}

#[test]
fn a_failed_upload_is_aborted_and_yields_nothing() {
    let mut upload = Upload::new(UploadLimits::new(4, 2, 1024));
    upload.granted();
    upload.feed(b"abcdefgh".to_vec());
    assert_eq!(upload.wants(), Want::Start);
    upload.started();
    upload.fail();
    assert_eq!(upload.wants(), Want::Abort);
    upload.fail();
    assert!(upload.finish().is_none());
}

#[test]
fn byte_caps_become_whole_part_slots() {
    let limits = UploadLimits::new(64 * 1024 * 1024, 4, 1024 * 1024 * 1024);
    assert_eq!(limits.total_slots(), 16);
    // A cap smaller than one part still leaves a usable slot rather than
    // deadlocking every upload.
    let tiny = UploadLimits::new(64 * 1024 * 1024, 4, 1024);
    assert_eq!(tiny.total_slots(), 1);
}

#[test]
fn deletes_go_out_in_batches() {
    let keys: Vec<String> = (0..2001).map(|i| format!("k{i}")).collect();
    let batches = delete_batches(&keys);
    assert_eq!(
        batches.iter().map(Vec::len).collect::<Vec<_>>(),
        vec![1000, 1000, 1]
    );
    assert_eq!(batches.concat(), keys);
}

#[test]
fn only_old_uploads_that_nobody_makes_are_aborted() {
    let open = |hash: &str, age_secs: u64| OpenUpload {
        key: key_for(hash),
        upload_id: "id".into(),
        age_secs,
    };
    let mut in_flight = InFlight::new();
    let _claim = in_flight.claim("busy", Kind::Upload).unwrap();
    let uploads = vec![open("old", 90000), open("busy", 90000), open("young", 5)];
    assert_eq!(stale_uploads(&uploads, 86400, &in_flight), vec![0]);
}

fn object() -> Object {
    Object {
        store_path_hash: "aaaaaaaaaaaaaaaaaaaaaaaaaaaaaaaa".into(),
        store_path: "/nix/store/aaaaaaaaaaaaaaaaaaaaaaaaaaaaaaaa-hello-1.0".into(),
        name: "hello-1.0".into(),
        nar_hash: "sha256:0mdqa9w1p6cmli6976v4wi0sw9r4p5prkj7lzfd1877wk11c9c73".into(),
        nar_size: 4096,
        file_hash: "sha256:1q6zw3dd7l2vnwk06rlnzwl8g1582sbagj6hccngspc7yvhrip52".into(),
        file_size: 1024,
        deriver: None,
        ca: None,
        references: vec!["cccccccccccccccccccccccccccccccc-b".into()],
        sigs: vec![],
        pushed_by: None,
    }
}

fn b64(bytes: &[u8]) -> String {
    base64::engine::general_purpose::STANDARD.encode(bytes)
}

fn from_b64(text: &str) -> Vec<u8> {
    base64::engine::general_purpose::STANDARD
        .decode(text)
        .unwrap()
}

#[test]
fn signature_verifies_over_the_fingerprint() {
    let key = ed25519_dalek::SigningKey::from_bytes(&[7u8; 32]);
    let keypair: Vec<u8> = key
        .to_bytes()
        .iter()
        .chain(key.verifying_key().to_bytes().iter())
        .copied()
        .collect();
    let file = SigningKeyFile::parse(&format!("test-1:{}", b64(&keypair))).unwrap();

    let obj = object();
    let public_text = file.public_key();
    let sigs = sign(&obj, "/nix/store", &vec![file]).unwrap();
    let (name, text) = sigs[0].split_once(':').unwrap();
    assert_eq!(name, "test-1");

    let sig = ed25519_dalek::Signature::from_slice(&from_b64(text)).unwrap();
    let public = ed25519_dalek::VerifyingKey::from_bytes(
        &from_b64(public_text.split_once(':').unwrap().1)[..]
            .try_into()
            .unwrap(),
    )
    .unwrap();
    assert!(public
        .verify(fingerprint(&obj, "/nix/store").as_bytes(), &sig)
        .is_ok());
}

#[test]
fn fingerprint_uses_full_store_paths() {
    assert_eq!(
        fingerprint(&object(), "/nix/store"),
        "1;/nix/store/aaaaaaaaaaaaaaaaaaaaaaaaaaaaaaaa-hello-1.0;\
         sha256:0mdqa9w1p6cmli6976v4wi0sw9r4p5prkj7lzfd1877wk11c9c73;4096;\
         /nix/store/cccccccccccccccccccccccccccccccc-b"
    );
}

#[test]
fn references_are_signed_in_order() {
    let (a, b, c) = ("a".repeat(32), "b".repeat(32), "c".repeat(32));
    let mut obj = object();
    obj.store_path = format!("/nix/store/{a}-x");
    obj.nar_hash = "sha256:n".into();
    obj.nar_size = 7;
    obj.references = vec![format!("{c}-b"), format!("{b}-a")];
    let expected = format!("1;/nix/store/{a}-x;sha256:n;7;/nix/store/{b}-a,/nix/store/{c}-b");
    assert_eq!(fingerprint(&obj, "/nix/store"), expected);
    obj.references.reverse();
    assert_eq!(fingerprint(&obj, "/nix/store"), expected);
}

#[test]
fn hashes_normalise_to_the_form_nix_signs_over() {
    // Same 32 bytes (sha256 of ""), spelled three ways.
    let base32 = "0mdqa9w1p6cmli6976v4wi0sw9r4p5prkj7lzfd1877wk11c9c73";
    let sri = "sha256-47DEQpj8HBSa+/TImW+5JCeuQeRkm5NMpJWZG3hSuFU=";
    assert_eq!(normalize_hash(sri).unwrap(), format!("sha256:{base32}"));
    assert_eq!(
        normalize_hash(&format!("sha256:{base32}")).unwrap(),
        format!("sha256:{base32}")
    );
    assert_eq!(
        normalize_hash("sha256:47DEQpj8HBSa+/TImW+5JCeuQeRkm5NMpJWZG3hSuFU=").unwrap(),
        format!("sha256:{base32}")
    );

    assert!(normalize_hash("md5:abc").is_err());
    assert!(normalize_hash("sha256-not-base64!!").is_err());
    // Right encoding, wrong length: must not silently produce a short hash.
    assert!(normalize_hash("sha256-YWJj").is_err());
}

#[test]
fn every_bad_hash_has_its_error() {
    assert!(matches!(
        normalize_hash("md5:abc"),
        Err(HashError::Unsupported { hash }) if hash == "md5:abc"
    ));
    assert!(matches!(
        normalize_hash("sha256-not-base64!!"),
        Err(HashError::NotADigest { .. })
    ));
    assert!(matches!(
        normalize_hash("sha256-YWJj"),
        Err(HashError::WrongLength { bytes: 3 })
    ));
}

#[test]
fn unsigned_object_is_refused() {
    assert!(sign(&object(), "/nix/store", &vec![]).is_err());
}

#[test]
fn narinfo_has_the_fields_nix_requires() {
    let mut obj = object();
    obj.sigs = vec!["test-1:abc".into()];
    let text = render(&obj);
    for field in [
        "StorePath:",
        "URL: nar/",
        "Compression: zstd",
        "FileHash:",
        "FileSize:",
        "NarHash:",
        "NarSize:",
        "References:",
        "Sig:",
    ] {
        assert!(text.contains(field), "narinfo missing {field}:\n{text}");
    }
    assert!(!text.contains("Deriver:"));
}

#[test]
fn key_files_are_read_or_refused() {
    let good = format!("k-1:{}", b64(&[9; 64]));
    let keys = parse_keys(&vec![good.clone(), format!("  {good}\n")]).unwrap();
    assert_eq!(keys.len(), 2);
    assert_eq!(keys[1].name, "k-1");
    assert_eq!(keys[1].seed, [9; 32]);
    let bad = |text: &str| parse_keys(&vec![good.clone(), text.into()]).err().unwrap();
    assert_eq!(bad("nothing"), KeyError::Malformed);
    assert_eq!(bad("k:!!"), KeyError::NotBase64);
    assert_eq!(bad("k:AAAA"), KeyError::TooShort);
    assert_eq!(KeyError::TooShort.message(), "signing key is too short");
}

#[test]
fn matches_nix() {
    assert_eq!(
        encode(&sha2::Sha256::digest(b"")),
        "0mdqa9w1p6cmli6976v4wi0sw9r4p5prkj7lzfd1877wk11c9c73"
    );
    assert_eq!(
        encode(&sha2::Sha256::digest(b"garret")),
        "1q6zw3dd7l2vnwk06rlnzwl8g1582sbagj6hccngspc7yvhrip52"
    );
    assert_eq!(encode(&[]), "");
    assert_eq!(
        garret::digest::digest(b"garret"),
        sha2::Sha256::digest(b"garret").to_vec()
    );
}

#[test]
fn a_store_hash_has_32_digits_of_the_alphabet() {
    assert!(is_store_hash("0123456789abcdfghijklmnpqrsvwxyz"));
    assert!(!is_store_hash("0123456789abcdefghijklmnpqrsvwxy"));
    assert!(!is_store_hash("abc"));
}
