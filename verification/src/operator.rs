//! What the operator's tool makes of its arguments and of the replies that it
//! gets.

use vstd::prelude::*;
use vstd::string::*;

use crate::calendar::{date_of, day_start, read_day};
use crate::encoding::{base64_ends_black, standard_base64, to_base64};
use crate::fsck::{mismatches_view, rows_view, FsckReport, FsckRow, FsckSizeMismatch};
use crate::narinfo::{
    decoding_undoes_encoding, ed25519_public, key_in_file, public_of, KeyError, KeyView,
    SigningKeyFile,
};
use crate::number::{
    decimal, decimal_int, decimal_int_reads_back, parse_signed, read_signed, show, show_signed,
};
use crate::text::{
    first_of_is, join, joined, joined_texts_hold_each_part, occurs, occurs_in_more, quoted,
    quoted_text, texts, to_chars, trim_back, trim_front, trimmed, white,
};

verus! {

/// How many seconds the unit has that a duration ends in.
pub open spec fn unit_secs(c: char) -> Option<int> {
    if c == 's' {
        Some(1)
    } else if c == 'm' {
        Some(60)
    } else if c == 'h' {
        Some(3600)
    } else if c == 'd' {
        Some(86400)
    } else {
        None
    }
}

/// How many seconds `text` stands for: a positive number and a unit.
pub open spec fn seconds_in(text: Seq<char>) -> Option<int> {
    if text.len() == 0 {
        None
    } else {
        match (unit_secs(text.last()), parse_signed(text.drop_last())) {
            (Some(scale), Some(n)) if n > 0 => Some(n * scale),
            _ => None,
        }
    }
}

/// `text` does not end inside the sequences that spell a character, and the
/// time that lies its duration behind `now` can be told.
pub open spec fn tellable(text: Seq<char>, now: int) -> bool {
    &&& text.len() > 0 ==> text.last() <= '\u{7f}'
    &&& seconds_in(text) matches Some(secs) ==> now + secs <= i64::MAX
}

/// What is said of a bad duration.
pub open spec fn duration_refused(text: Seq<char>) -> Seq<char> {
    "bad duration "@ + quoted_text(text) + " \u{2014} use e.g. 90s, 30m, 36h, 30d"@
}

fn scale_of(c: char) -> (r: Option<i64>)
    ensures
        match r {
            Some(scale) => unit_secs(c) == Some(scale as int) && 1 <= scale <= 86400,
            None => unit_secs(c) is None,
        },
{
    if c == 's' {
        Some(1)
    } else if c == 'm' {
        Some(60)
    } else if c == 'h' {
        Some(3600)
    } else if c == 'd' {
        Some(86400)
    } else {
        None
    }
}

/// The number and the length of the unit that `text` holds.
fn parts_of(text: &str) -> (r: Option<(i64, i64)>)
    ensures
        match r {
            Some((n, scale)) => n > 0 && 1 <= scale <= 86400 && seconds_in(text@) == Some(
                n * scale,
            ),
            None => seconds_in(text@) is None,
        },
{
    let chars = to_chars(text);
    if chars.len() == 0 {
        return None;
    }
    let last: usize = chars.len() - 1;
    let digits = text.substring_char(0, last);
    assert(digits@ =~= text@.drop_last());
    match scale_of(chars[last]) {
        None => None,
        Some(scale) => match read_signed(digits) {
            Some(n) if n > 0 => Some((n, scale)),
            _ => None,
        },
    }
}

/// Whether the time that lies `text` behind `now` can be told.
pub fn is_tellable(text: &str, now: i64) -> (r: bool)
    ensures
        r == tellable(text@, now as int),
{
    let chars = to_chars(text);
    if chars.len() > 0 && chars[chars.len() - 1] > '\u{7f}' {
        return false;
    }
    match parts_of(text) {
        None => true,
        Some((n, scale)) => {
            proof {
                fits_wide(n as int, scale as int);
            }
            let secs: i128 = n as i128 * scale as i128;
            now as i128 + secs <= i64::MAX as i128
        },
    }
}

proof fn fits_wide(n: int, scale: int)
    by (nonlinear_arith)
    requires
        0 < n <= i64::MAX,
        1 <= scale <= 86400,
    ensures
        0 < n * scale <= i64::MAX * 86400,
{
}

/// How many seconds `text` stands for, as in `90s`, `30m`, `36h` or `30d`.
pub fn parse_duration(text: &str) -> (r: Result<i64, String>)
    requires
        tellable(text@, 0),
    ensures
        match r {
            Ok(secs) => seconds_in(text@) == Some(secs as int),
            Err(e) => seconds_in(text@) is None && e@ == duration_refused(text@),
        },
{
    match parts_of(text) {
        Some((n, scale)) => {
            proof {
                fits_wide(n as int, scale as int);
            }
            Ok(n * scale)
        },
        None => Err(
            "bad duration ".to_owned().concat(quoted(text).as_str()).concat(
                " \u{2014} use e.g. 90s, 30m, 36h, 30d",
            ),
        ),
    }
}

/// When a pin ends that is made `now`; without a duration it does not.
pub fn pin_expiry(expires: Option<&str>, now: i64) -> (r: Result<Option<i64>, String>)
    requires
        now >= 0,
        expires matches Some(text) ==> tellable(text@, now as int),
    ensures
        match expires {
            None => r == Ok::<Option<i64>, String>(None),
            Some(text) => match r {
                Ok(at) => at matches Some(t) && seconds_in(text@) == Some(t - now),
                Err(e) => seconds_in(text@) is None && e@ == duration_refused(text@),
            },
        },
{
    match expires {
        None => Ok(None),
        Some(text) => match parse_duration(text) {
            Ok(secs) => Ok(Some(now + secs)),
            Err(e) => Err(e),
        },
    }
}

/// What is said of a bad cutoff.
pub open spec fn cutoff_refused(text: Seq<char>) -> Seq<char> {
    "bad cutoff "@ + quoted_text(text) + " \u{2014} use a date as in 2025-08-06, or an age as in 30d"@
}

/// Before when a closure was last pushed that `before` names: before a day
/// begins, or longer ago than a duration.
pub fn prune_cutoff(before: &str, now: i64) -> (r: Result<i64, String>)
    ensures
        match date_of(before@) {
            Some((year, month, day)) => r matches Ok(at) && at == day_start(year, month, day),
            None => match seconds_in(before@) {
                Some(secs) if now - secs >= i64::MIN => r matches Ok(at) && at == now - secs,
                _ => r matches Err(e) && e@ == cutoff_refused(before@),
            },
        },
{
    if let Some(at) = read_day(before) {
        return Ok(at);
    }
    if let Some((n, scale)) = parts_of(before) {
        proof {
            fits_wide(n as int, scale as int);
        }
        let at: i128 = now as i128 - n as i128 * scale as i128;
        if at >= i64::MIN as i128 {
            return Ok(at as i64);
        }
    }
    Err(
        "bad cutoff ".to_owned().concat(quoted(before).as_str()).concat(
            " \u{2014} use a date as in 2025-08-06, or an age as in 30d",
        ),
    )
}

/// The secret key file of Nix: the name, and in base64 the secret half followed
/// by the public one.
pub open spec fn secret_text(key: KeyView) -> Seq<char> {
    key.name + ":"@ + standard_base64(key.seed + ed25519_public(key.seed)) + "\n"@
}

/// A name that a key file gives back: no colon, and no white space in front.
pub open spec fn plain_name(name: Seq<char>) -> bool {
    &&& !name.contains(':')
    &&& name.len() > 0 ==> !white(name[0])
}

/// What is read from a secret key file is the key that it was written for.
pub proof fn key_files_round_trip(key: KeyView)
    requires
        key.seed.len() == 32,
        plain_name(key.name),
    ensures
        key_in_file(secret_text(key)) == Ok::<KeyView, KeyError>(key),
{
    reveal_strlit(":");
    reveal_strlit("\n");
    let bytes = key.seed + ed25519_public(key.seed);
    let code = standard_base64(bytes);
    let all = secret_text(key);
    let line = key.name + ":"@ + code;
    base64_ends_black(bytes);
    assert(all =~= line.push('\n'));
    assert(all[0] == if key.name.len() > 0 {
        key.name[0]
    } else {
        ':'
    });
    assert(trim_front(all) == all);
    assert(all.last() == '\n');
    assert(all.drop_last() =~= line);
    assert(line.last() == code.last());
    assert(trim_back(line) == line);
    assert(trimmed(all) == line);
    let at = key.name.len() as int;
    assert forall|k: int| 0 <= k < at implies line[k] != ':' by {
        assert(line[k] == key.name[k]);
        assert(key.name.contains(key.name[k]));
    }
    assert(line[at] == ':');
    first_of_is(line, ':', at);
    assert(line.take(at) =~= key.name);
    assert(line.skip(at + 1) =~= code);
    decoding_undoes_encoding(bytes);
    assert(bytes.take(32) =~= key.seed);
}

/// `ed25519_dalek::SigningKey::generate` from the randomness of the operating
/// system: a fresh secret. Nothing is claimed of it.
#[verifier::external_body]
fn fresh_seed() -> (r: [u8; 32]) {
    ed25519_dalek::SigningKey::generate(&mut rand::rngs::OsRng).to_bytes()
}

/// A fresh signing key.
pub fn generate_key(name: &str) -> (r: SigningKeyFile)
    ensures
        r.name@ == name@,
{
    SigningKeyFile { name: name.to_owned(), seed: fresh_seed() }
}

/// The secret key file for `key`.
pub fn key_file(key: &SigningKeyFile) -> (r: String)
    ensures
        r@ == secret_text(key@),
{
    let mut material: Vec<u8> = Vec::new();
    material.extend_from_slice(key.seed.as_slice());
    let mut public = public_of(&key.seed);
    material.append(&mut public);
    assert(material@ =~= key@.seed + ed25519_public(key@.seed));
    key.name.clone().concat(":").concat(to_base64(material.as_slice()).as_str()).concat("\n")
}

/// What the operator is told of a key file that cannot be shown.
pub open spec fn shown_refused(e: KeyError) -> Seq<char> {
    match e {
        KeyError::Malformed => "malformed key file: expected `name:base64`"@,
        KeyError::NotBase64 => "key is not valid base64"@,
        KeyError::TooShort => "key is too short"@,
    }
}

/// The public half of the key in a secret key file.
pub fn show_key(contents: &str) -> (r: Result<String, String>)
    ensures
        match r {
            Ok(text) => key_in_file(contents@) matches Ok(key) && text@
                == crate::narinfo::public_key_text(key),
            Err(text) => key_in_file(contents@) matches Err(e) && text@ == shown_refused(e),
        },
{
    match SigningKeyFile::parse(contents) {
        Ok(key) => Ok(key.public_key()),
        Err(KeyError::Malformed) => Err("malformed key file: expected `name:base64`".to_owned()),
        Err(KeyError::NotBase64) => Err("key is not valid base64".to_owned()),
        Err(KeyError::TooShort) => Err("key is too short".to_owned()),
    }
}

/// What is told of a pass of the collection; `freed` is how the bytes are shown.
pub open spec fn gc_text(evicted: int, freed: Seq<char>, candidates_exhausted: bool) -> Seq<
    Seq<char>,
> {
    let first = "evicted "@ + decimal_int(evicted) + " object(s), freeing "@ + freed;
    if candidates_exhausted {
        seq![
            first,
            "warning: still above the low watermark with nothing evictable \u{2014} everything left is referenced"@,
        ]
    } else {
        seq![first]
    }
}

/// What is told of a pass of the collection.
pub fn gc_lines(evicted: usize, freed: &str, candidates_exhausted: bool) -> (r: Vec<String>)
    ensures
        texts(r@) == gc_text(evicted as int, freed@, candidates_exhausted),
{
    let mut out: Vec<String> = Vec::new();
    out.push(
        "evicted ".to_owned().concat(show(evicted as u64).as_str()).concat(
            " object(s), freeing ",
        ).concat(freed),
    );
    if candidates_exhausted {
        out.push(
            "warning: still above the low watermark with nothing evictable \u{2014} everything left is referenced".to_owned(),
        );
    }
    assert(texts(out@) =~= gc_text(evicted as int, freed@, candidates_exhausted));
    out
}

/// What is told of a removal. A mistyped hash would look like a success if what
/// was not there were not named.
pub open spec fn delete_text(deleted: int, bytes_freed: int, missing: Seq<Seq<char>>) -> Seq<
    Seq<char>,
> {
    let first = "deleted "@ + decimal_int(deleted) + " object(s), "@ + decimal_int(bytes_freed)
        + " byte(s) freed"@;
    if missing.len() > 0 {
        seq![first, "not in the cache: "@ + joined(missing, ", "@)]
    } else {
        seq![first]
    }
}

/// What is told of a removal.
pub fn delete_lines(deleted: usize, bytes_freed: i64, missing: &Vec<String>) -> (r: Vec<String>)
    ensures
        texts(r@) == delete_text(deleted as int, bytes_freed as int, texts(missing@)),
{
    let mut out: Vec<String> = Vec::new();
    out.push(
        "deleted ".to_owned().concat(show(deleted as u64).as_str()).concat(" object(s), ").concat(
            show_signed(bytes_freed).as_str(),
        ).concat(" byte(s) freed"),
    );
    if missing.len() > 0 {
        out.push("not in the cache: ".to_owned().concat(join(missing, ", ").as_str()));
    }
    assert(texts(out@) =~= delete_text(deleted as int, bytes_freed as int, texts(missing@)));
    out
}

/// What is told of a pin's removal: a name that no pin has is an error.
pub fn unpin_outcome(removed: bool) -> (r: Result<String, String>)
    ensures
        match r {
            Ok(text) => removed && text@ == "unpinned"@,
            Err(text) => !removed && text@ == "no pin has that name"@,
        },
{
    if removed {
        Ok("unpinned".to_owned())
    } else {
        Err("no pin has that name".to_owned())
    }
}

/// A check found nothing wrong. Blobs without rows are no fault: the sweep
/// deletes them in its own time.
pub open spec fn is_clean(report: FsckReport) -> bool {
    &&& report.dangling@.len() == 0
    &&& report.size_mismatches@.len() == 0
    &&& report.quiesced ==> report.quiesce_drained
}

/// Whether a check found nothing wrong.
pub fn fsck_ok(report: &FsckReport) -> (r: bool)
    ensures
        r == is_clean(*report),
{
    report.dangling.len() == 0 && report.size_mismatches.len() == 0 && !(report.quiesced
        && !report.quiesce_drained)
}

/// The line for a row without a blob.
pub open spec fn row_text(row: (Seq<char>, Seq<char>)) -> Seq<char> {
    "  "@ + row.0 + " "@ + row.1
}

/// The line for a row whose blob has another size.
pub open spec fn mismatch_text(row: (Seq<char>, Seq<char>, i64, i64)) -> Seq<char> {
    "  "@ + row.0 + " "@ + row.1 + " (db "@ + decimal_int(row.2 as int) + " bytes, s3 "@
        + decimal_int(row.3 as int) + " bytes)"@
}

/// One category of a report: how many it has, and the line for each.
pub open spec fn category(
    title: Seq<char>,
    behind: Seq<char>,
    lines: Seq<Seq<char>>,
) -> Seq<Seq<char>> {
    if lines.len() == 0 {
        seq![title + ": none"@]
    } else {
        seq![title + " ("@ + decimal(lines.len()) + ")"@ + behind] + lines
    }
}

/// The report of a check.
pub open spec fn fsck_text(report: FsckReport, repair: bool) -> Seq<Seq<char>> {
    category(
        "dangling rows"@,
        ":"@,
        rows_view(report.dangling@).map_values(|row: (Seq<char>, Seq<char>)| row_text(row)),
    ) + category(
        "size mismatches"@,
        ":"@,
        mismatches_view(report.size_mismatches@).map_values(
            |row: (Seq<char>, Seq<char>, i64, i64)| mismatch_text(row),
        ),
    ) + category(
        "orphan blobs"@,
        ", informational only \u{2014} handled by the orphan sweep:"@,
        texts(report.orphans@).map_values(|key: Seq<char>| "  "@ + key),
    ) + (if repair {
        seq!["repaired "@ + decimal(report.repaired as nat) + " row(s)"@]
    } else {
        Seq::empty()
    }) + (if report.quiesced && !report.quiesce_drained {
        seq![
            "quiesce timed out waiting for uploads to drain \u{2014} no repair was performed"@,
        ]
    } else {
        Seq::empty()
    })
}

fn push_category(out: &mut Vec<String>, title: &str, behind: &str, lines: Vec<String>)
    ensures
        texts(final(out)@) == texts(old(out)@) + category(title@, behind@, texts(lines@)),
{
    let ghost before = texts(out@);
    let ghost wanted = texts(lines@);
    if lines.len() == 0 {
        out.push(title.to_owned().concat(": none"));
        assert(texts(out@) =~= before + category(title@, behind@, wanted));
    } else {
        out.push(
            title.to_owned().concat(" (").concat(show(lines.len() as u64).as_str()).concat(
                ")",
            ).concat(behind),
        );
        let mut rest = lines;
        out.append(&mut rest);
        assert(texts(out@) =~= before + category(title@, behind@, wanted));
    }
}

fn row_lines(rows: &Vec<FsckRow>) -> (r: Vec<String>)
    ensures
        texts(r@) == rows_view(rows@).map_values(|row: (Seq<char>, Seq<char>)| row_text(row)),
{
    let mut out: Vec<String> = Vec::new();
    let mut i: usize = 0;
    while i < rows.len()
        invariant
            i <= rows@.len(),
            out@.len() == i,
            forall|k: int|
                0 <= k < i ==> (#[trigger] out@[k])@ == row_text(
                    (rows@[k].store_path_hash@, rows@[k].name@),
                ),
        decreases rows@.len() - i,
    {
        out.push(
            "  ".to_owned().concat(rows[i].store_path_hash.as_str()).concat(" ").concat(
                rows[i].name.as_str(),
            ),
        );
        i += 1;
    }
    assert(texts(out@) =~= rows_view(rows@).map_values(
        |row: (Seq<char>, Seq<char>)| row_text(row),
    ));
    out
}

fn mismatch_lines(rows: &Vec<FsckSizeMismatch>) -> (r: Vec<String>)
    ensures
        texts(r@) == mismatches_view(rows@).map_values(
            |row: (Seq<char>, Seq<char>, i64, i64)| mismatch_text(row),
        ),
{
    let mut out: Vec<String> = Vec::new();
    let mut i: usize = 0;
    while i < rows.len()
        invariant
            i <= rows@.len(),
            out@.len() == i,
            forall|k: int|
                0 <= k < i ==> (#[trigger] out@[k])@ == mismatch_text(
                    (
                        rows@[k].store_path_hash@,
                        rows@[k].name@,
                        rows@[k].db_size,
                        rows@[k].s3_size,
                    ),
                ),
        decreases rows@.len() - i,
    {
        out.push(
            "  ".to_owned().concat(rows[i].store_path_hash.as_str()).concat(" ").concat(
                rows[i].name.as_str(),
            ).concat(" (db ").concat(show_signed(rows[i].db_size).as_str()).concat(
                " bytes, s3 ",
            ).concat(show_signed(rows[i].s3_size).as_str()).concat(" bytes)"),
        );
        i += 1;
    }
    assert(texts(out@) =~= mismatches_view(rows@).map_values(
        |row: (Seq<char>, Seq<char>, i64, i64)| mismatch_text(row),
    ));
    out
}

fn orphan_lines(keys: &Vec<String>) -> (r: Vec<String>)
    ensures
        texts(r@) == texts(keys@).map_values(|key: Seq<char>| "  "@ + key),
{
    let mut out: Vec<String> = Vec::new();
    let mut i: usize = 0;
    while i < keys.len()
        invariant
            i <= keys@.len(),
            out@.len() == i,
            forall|k: int| 0 <= k < i ==> (#[trigger] out@[k])@ == "  "@ + keys@[k]@,
        decreases keys@.len() - i,
    {
        out.push("  ".to_owned().concat(keys[i].as_str()));
        i += 1;
    }
    assert(texts(out@) =~= texts(keys@).map_values(|key: Seq<char>| "  "@ + key));
    out
}

/// The report of a check, line by line; `repair` is whether one was asked for.
pub fn fsck_lines(report: &FsckReport, repair: bool) -> (r: Vec<String>)
    ensures
        texts(r@) == fsck_text(*report, repair),
{
    let mut out: Vec<String> = Vec::new();
    assert(texts(out@) =~= Seq::<Seq<char>>::empty());
    push_category(&mut out, "dangling rows", ":", row_lines(&report.dangling));
    push_category(&mut out, "size mismatches", ":", mismatch_lines(&report.size_mismatches));
    push_category(
        &mut out,
        "orphan blobs",
        ", informational only \u{2014} handled by the orphan sweep:",
        orphan_lines(&report.orphans),
    );
    if repair {
        out.push(
            "repaired ".to_owned().concat(show(report.repaired as u64).as_str()).concat(
                " row(s)",
            ),
        );
    }
    if report.quiesced && !report.quiesce_drained {
        out.push(
            "quiesce timed out waiting for uploads to drain \u{2014} no repair was performed".to_owned(),
        );
    }
    assert(texts(out@) =~= fsck_text(*report, repair));
    out
}

/// A duration is a positive number of seconds, minutes, hours or days: nothing
/// else is read as one.
pub proof fn durations_are_numbers_of_units(n: i64, unit: char)
    ensures
        seconds_in(decimal_int(n as int).push(unit)) == if n <= 0 {
            None::<int>
        } else if unit == 's' {
            Some(n as int)
        } else if unit == 'm' {
            Some(n * 60)
        } else if unit == 'h' {
            Some(n * 60 * 60)
        } else if unit == 'd' {
            Some(n * 24 * 60 * 60)
        } else {
            None
        },
{
    decimal_int_reads_back(n);
    let text = decimal_int(n as int).push(unit);
    assert(text.drop_last() =~= decimal_int(n as int));
    assert(text.last() == unit);
    if n > 0 && unit_secs(unit) is Some {
        let scale = unit_secs(unit)->0;
        assert(seconds_in(text) == Some(n * scale));
        assert(scale == 1 ==> n * scale == n) by (nonlinear_arith);
        assert(scale == 60 ==> n * scale == n * 60) by (nonlinear_arith);
        assert(scale == 3600 ==> n * scale == n * 60 * 60) by (nonlinear_arith);
        assert(scale == 86400 ==> n * scale == n * 24 * 60 * 60) by (nonlinear_arith);
    }
}

/// A report names every row without a blob and every row whose blob has another
/// size, with the two sizes, and every blob without a row.
pub proof fn reports_name_every_finding(report: FsckReport, repair: bool, i: int)
    ensures
        0 <= i < report.dangling@.len() ==> fsck_text(report, repair).contains(
            "  "@ + report.dangling@[i].store_path_hash@ + " "@ + report.dangling@[i].name@,
        ),
        0 <= i < report.size_mismatches@.len() ==> fsck_text(report, repair).contains(
            "  "@ + report.size_mismatches@[i].store_path_hash@ + " "@
                + report.size_mismatches@[i].name@ + " (db "@ + decimal_int(
                report.size_mismatches@[i].db_size as int,
            ) + " bytes, s3 "@ + decimal_int(report.size_mismatches@[i].s3_size as int)
                + " bytes)"@,
        ),
        0 <= i < report.orphans@.len() ==> fsck_text(report, repair).contains(
            "  "@ + report.orphans@[i]@,
        ),
{
    let dangling = rows_view(report.dangling@).map_values(
        |row: (Seq<char>, Seq<char>)| row_text(row),
    );
    let mismatched = mismatches_view(report.size_mismatches@).map_values(
        |row: (Seq<char>, Seq<char>, i64, i64)| mismatch_text(row),
    );
    let orphans = texts(report.orphans@).map_values(|key: Seq<char>| "  "@ + key);
    let a = category("dangling rows"@, ":"@, dangling);
    let b = category("size mismatches"@, ":"@, mismatched);
    let c = category(
        "orphan blobs"@,
        ", informational only \u{2014} handled by the orphan sweep:"@,
        orphans,
    );
    let all = fsck_text(report, repair);
    if 0 <= i < dangling.len() {
        assert(a[i + 1] == dangling[i]);
        assert(all[i + 1] == dangling[i]);
    }
    if 0 <= i < mismatched.len() {
        assert(b[i + 1] == mismatched[i]);
        assert(all[a.len() + i + 1] == mismatched[i]);
    }
    if 0 <= i < orphans.len() {
        assert(c[i + 1] == orphans[i]);
        assert(all[a.len() + b.len() + i + 1] == orphans[i]);
    }
}

/// A check is clean if, and only if, no row lacks its blob, no sizes differ, and
/// where uploads were to drain they did.
pub proof fn clean_reports_hold_no_fault(report: FsckReport)
    ensures
        is_clean(report) <==> report.dangling@.len() == 0 && report.size_mismatches@.len() == 0 && (
        !report.quiesced || report.quiesce_drained),
{
}

/// What a pass and a removal did is told in numbers, with a warning where nothing
/// more could go, and with each hash that was not there.
pub proof fn outcomes_are_told(
    evicted: nat,
    freed: Seq<char>,
    deleted: nat,
    bytes: int,
    missing: Seq<Seq<char>>,
    i: int,
)
    ensures
        gc_text(evicted as int, freed, false).len() == 1,
        gc_text(evicted as int, freed, true).len() == 2,
        gc_text(evicted as int, freed, true)[0] == gc_text(evicted as int, freed, false)[0],
        gc_text(evicted as int, freed, false)[0] == "evicted "@ + decimal(evicted)
            + " object(s), freeing "@ + freed,
        delete_text(deleted as int, bytes, missing)[0] == "deleted "@ + decimal(deleted)
            + " object(s), "@ + decimal_int(bytes) + " byte(s) freed"@,
        missing.len() == 0 ==> delete_text(deleted as int, bytes, missing).len() == 1,
        0 <= i < missing.len() ==> delete_text(deleted as int, bytes, missing).len() == 2 && occurs(
            delete_text(deleted as int, bytes, missing)[1],
            missing[i],
        ),
{
    if 0 <= i < missing.len() {
        joined_texts_hold_each_part(missing, ", "@, i);
        let line = "not in the cache: "@ + joined(missing, ", "@);
        occurs_in_more("not in the cache: "@, joined(missing, ", "@), Seq::empty(), missing[i]);
        assert("not in the cache: "@ + joined(missing, ", "@) + Seq::<char>::empty() =~= line);
    }
}

/// Whatever is read as a duration is a positive number with one of the four units
/// behind it, and stands for that many of them.
pub proof fn only_numbers_of_units_are_durations(text: Seq<char>)
    requires
        seconds_in(text) is Some,
    ensures
        text.len() > 0,
        parse_signed(text.drop_last()) is Some,
        parse_signed(text.drop_last())->0 > 0,
        text.last() == 's' || text.last() == 'm' || text.last() == 'h' || text.last() == 'd',
        text.last() == 's' ==> seconds_in(text)->0 == parse_signed(text.drop_last())->0,
        text.last() == 'm' ==> seconds_in(text)->0 == parse_signed(text.drop_last())->0 * 60,
        text.last() == 'h' ==> seconds_in(text)->0 == parse_signed(text.drop_last())->0 * 3600,
        text.last() == 'd' ==> seconds_in(text)->0 == parse_signed(text.drop_last())->0 * 86400,
{
    let n = parse_signed(text.drop_last())->0;
    let scale = unit_secs(text.last())->0;
    assert(scale == 1 ==> n * scale == n) by (nonlinear_arith);
    assert(scale == 60 ==> n * scale == n * 60) by (nonlinear_arith);
    assert(scale == 3600 ==> n * scale == n * 3600) by (nonlinear_arith);
    assert(scale == 86400 ==> n * scale == n * 86400) by (nonlinear_arith);
}

} // verus!
