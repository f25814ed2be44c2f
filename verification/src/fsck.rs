//! The check of the rows against the blobs: every row has its blob, and what
//! drifted is reported and repaired.

use vstd::prelude::*;
use vstd::string::*;

use crate::db::{
    all_hashes, all_objects_brief, brief_of, delete_object, objects_less, pins_less, Brief, Db,
    RowView,
};
use crate::gc::{orphan_keys, orphans_of};
use crate::inflight::InFlight;
use crate::storage::{hash_for, hash_in_key, Blob};
use crate::table::{Keyed, Table};
use crate::text::texts;

verus! {

/// A row without a blob.
#[derive(Debug, Clone, PartialEq, Eq)]
pub struct FsckRow {
    /// Store path hash.
    pub store_path_hash: String,
    /// The name, for a report that people can read.
    pub name: String,
}

/// A row whose blob has another size.
#[derive(Debug, Clone, PartialEq, Eq)]
pub struct FsckSizeMismatch {
    /// Store path hash.
    pub store_path_hash: String,
    /// The name, for a report that people can read.
    pub name: String,
    /// The size in the row.
    pub db_size: i64,
    /// The size of the blob.
    pub s3_size: i64,
}

/// What a [`FsckRow`] holds.
pub open spec fn row_view(r: FsckRow) -> (Seq<char>, Seq<char>) {
    (r.store_path_hash@, r.name@)
}

/// What a [`FsckSizeMismatch`] holds.
pub open spec fn mismatch_view(m: FsckSizeMismatch) -> (Seq<char>, Seq<char>, i64, i64) {
    (m.store_path_hash@, m.name@, m.db_size, m.s3_size)
}

/// What a list of rows without blobs holds.
pub open spec fn rows_view(v: Seq<FsckRow>) -> Seq<(Seq<char>, Seq<char>)> {
    v.map_values(|r: FsckRow| row_view(r))
}

/// What a list of rows with other sizes holds.
pub open spec fn mismatches_view(v: Seq<FsckSizeMismatch>) -> Seq<
    (Seq<char>, Seq<char>, i64, i64),
> {
    v.map_values(|m: FsckSizeMismatch| mismatch_view(m))
}

/// The size of the blob of `hash`, as a listing has it last.
pub open spec fn blob_size(blobs: Seq<Blob>, hash: Seq<char>) -> Option<i64>
    decreases blobs.len(),
{
    if blobs.len() == 0 {
        None
    } else if hash_in_key(blobs.last().key@) == Some(hash) {
        Some(blobs.last().size)
    } else {
        blob_size(blobs.drop_last(), hash)
    }
}

/// What the rows are checked against.
pub struct Listing {
    /// The blobs that the store lists.
    pub blobs: Seq<Blob>,
    /// The hashes at which someone is at work.
    pub held: Set<Seq<char>>,
    /// Seconds for which a row without a blob is left alone.
    pub grace: int,
    /// The current time.
    pub now: int,
}

/// The row has no blob, nobody is at work on it, and it is old.
pub open spec fn dangles(l: Listing, hash: Seq<char>, created_at: int) -> bool {
    blob_size(l.blobs, hash) is None && !l.held.contains(hash) && l.now - created_at >= l.grace
}

/// The row has a blob of another size.
pub open spec fn differs(l: Listing, hash: Seq<char>, file_size: i64) -> bool {
    blob_size(l.blobs, hash) is Some && blob_size(l.blobs, hash)->0 != file_size
}

/// The rows without blobs, in order.
pub open spec fn dangling_of(l: Listing, rows: Seq<Brief>) -> Seq<(Seq<char>, Seq<char>)>
    decreases rows.len(),
{
    if rows.len() == 0 {
        Seq::empty()
    } else {
        let init = dangling_of(l, rows.drop_last());
        let row = rows.last();
        if dangles(l, row.hash@, row.created_at as int) {
            init.push((row.hash@, row.name@))
        } else {
            init
        }
    }
}

/// The rows with blobs of another size, in order.
pub open spec fn mismatches_of(l: Listing, rows: Seq<Brief>) -> Seq<
    (Seq<char>, Seq<char>, i64, i64),
>
    decreases rows.len(),
{
    if rows.len() == 0 {
        Seq::empty()
    } else {
        let init = mismatches_of(l, rows.drop_last());
        let row = rows.last();
        if differs(l, row.hash@, row.file_size) {
            init.push((row.hash@, row.name@, row.file_size, blob_size(l.blobs, row.hash@)->0))
        } else {
            init
        }
    }
}

/// The size of one blob, under the hash that its key encodes.
struct BlobSize {
    hash: String,
    size: i64,
}

impl View for BlobSize {
    type V = (Seq<char>, i64);

    closed spec fn view(&self) -> (Seq<char>, i64) {
        (self.hash@, self.size)
    }
}

impl Keyed for BlobSize {
    open spec fn key_of(v: (Seq<char>, i64)) -> Seq<char> {
        v.0
    }

    fn key(&self) -> (r: &str) {
        self.hash.as_str()
    }
}

/// The sizes of the blobs by hash.
fn sizes_by_hash(blobs: &Vec<Blob>) -> (r: Table<BlobSize>)
    ensures
        r.wf(),
        forall|h: Seq<char>| #[trigger]
            r@.dom().contains(h) <==> blob_size(blobs@, h) is Some,
        forall|h: Seq<char>| #[trigger]
            r@.dom().contains(h) ==> r@[h] == (h, blob_size(blobs@, h)->0),
{
    let mut out: Table<BlobSize> = Table::new();
    let mut i: usize = 0;
    while i < blobs.len()
        invariant
            i <= blobs@.len(),
            out.wf(),
            forall|h: Seq<char>| #[trigger]
                out@.dom().contains(h) <==> blob_size(blobs@.take(i as int), h) is Some,
            forall|h: Seq<char>| #[trigger]
                out@.dom().contains(h) ==> out@[h] == (h, blob_size(blobs@.take(i as int), h)->0),
        decreases blobs@.len() - i,
    {
        assert(blobs@.take(i as int + 1).drop_last() =~= blobs@.take(i as int));
        match hash_for(blobs[i].key.as_str()) {
            None => {},
            Some(hash) => {
                let row = BlobSize { hash: hash.to_owned(), size: blobs[i].size };
                assert(row@ == (hash@, blobs@[i as int].size));
                out.put(row);
            },
        }
        i += 1;
    }
    assert(blobs@.take(i as int) =~= blobs@);
    out
}

/// Sorts out the rows without a blob, past both guards, and, where sizes are
/// to be checked, those whose blob has another size.
pub fn classify_rows(
    db_rows: &Vec<Brief>,
    blobs: &Vec<Blob>,
    in_flight: &InFlight,
    grace_secs: u64,
    now: i64,
    verify_sizes: bool,
) -> (r: (Vec<FsckRow>, Vec<FsckSizeMismatch>))
    requires
        in_flight.wf(),
    ensures
        rows_view(r.0@) == dangling_of(
            (Listing {
                blobs: blobs@,
                held: in_flight@.dom(),
                grace: grace_secs as int,
                now: now as int,
            }),
            db_rows@,
        ),
        mismatches_view(r.1@) == if verify_sizes {
            mismatches_of(
                (Listing {
                    blobs: blobs@,
                    held: in_flight@.dom(),
                    grace: grace_secs as int,
                    now: now as int,
                }),
                db_rows@,
            )
        } else {
            Seq::empty()
        },
{
    let ghost l = Listing {
        blobs: blobs@,
        held: in_flight@.dom(),
        grace: grace_secs as int,
        now: now as int,
    };
    let sizes = sizes_by_hash(blobs);
    let mut dangling: Vec<FsckRow> = Vec::new();
    let mut mismatches: Vec<FsckSizeMismatch> = Vec::new();
    let mut i: usize = 0;
    assert(rows_view(dangling@) =~= dangling_of(l, db_rows@.take(0)));
    assert(mismatches_view(mismatches@) =~= mismatches_of(l, db_rows@.take(0)));
    while i < db_rows.len()
        invariant
            i <= db_rows@.len(),
            in_flight.wf(),
            sizes.wf(),
            l == (Listing {
                blobs: blobs@,
                held: in_flight@.dom(),
                grace: grace_secs as int,
                now: now as int,
            }),
            forall|h: Seq<char>| #[trigger]
                sizes@.dom().contains(h) <==> blob_size(blobs@, h) is Some,
            forall|h: Seq<char>| #[trigger]
                sizes@.dom().contains(h) ==> sizes@[h] == (h, blob_size(blobs@, h)->0),
            rows_view(dangling@) == dangling_of(l, db_rows@.take(i as int)),
            mismatches_view(mismatches@) == if verify_sizes {
                mismatches_of(l, db_rows@.take(i as int))
            } else {
                Seq::empty()
            },
        decreases db_rows@.len() - i,
    {
        let ghost was_dangling = dangling@;
        let ghost was_mismatched = mismatches@;
        assert(db_rows@.take(i as int + 1).drop_last() =~= db_rows@.take(i as int));
        let row = &db_rows[i];
        match sizes.get(row.hash.as_str()) {
            None => {
                let old_enough = now as i128 - row.created_at as i128 >= grace_secs as i128;
                if !in_flight.contains(row.hash.as_str()) && old_enough {
                    let found = FsckRow {
                        store_path_hash: row.hash.clone(),
                        name: row.name.clone(),
                    };
                    dangling.push(found);
                    assert(rows_view(dangling@) =~= rows_view(was_dangling).push(
                        (row.hash@, row.name@),
                    ));
                }
            },
            Some(blob) => {
                if verify_sizes && blob.size != row.file_size {
                    let found = FsckSizeMismatch {
                        store_path_hash: row.hash.clone(),
                        name: row.name.clone(),
                        db_size: row.file_size,
                        s3_size: blob.size,
                    };
                    mismatches.push(found);
                    assert(mismatches_view(mismatches@) =~= mismatches_view(was_mismatched).push(
                        (row.hash@, row.name@, row.file_size, blob.size),
                    ));
                }
            },
        }
        i += 1;
    }
    assert(db_rows@.take(i as int) =~= db_rows@);
    (dangling, mismatches)
}

/// No row is reported both as without a blob and as having one of another
/// size.
pub proof fn categories_are_disjoint(l: Listing, hash: Seq<char>, created_at: int, file_size: i64)
    ensures
        !(dangles(l, hash, created_at) && differs(l, hash, file_size)),
{
}

/// The hashes of the reported rows.
pub open spec fn reported(
    dangling: Seq<(Seq<char>, Seq<char>)>,
    mismatches: Seq<(Seq<char>, Seq<char>, i64, i64)>,
) -> Set<Seq<char>> {
    Set::new(
        |h: Seq<char>|
            (exists|i: int| 0 <= i < dangling.len() && (#[trigger] dangling[i]).0 == h) || (exists|
                i: int,
            |
                0 <= i < mismatches.len() && (#[trigger] mismatches[i]).0 == h),
    )
}

/// Deletes the reported rows, with their pins, and counts the reports. The
/// blobs are left to the sweep.
pub fn apply_repair(
    db: &mut Db,
    dangling: &Vec<FsckRow>,
    size_mismatches: &Vec<FsckSizeMismatch>,
) -> (r: usize)
    requires
        old(db).wf(),
        old(db).total_bytes >= 0,
        dangling@.len() + size_mismatches@.len() <= usize::MAX,
    ensures
        final(db).wf(),
        final(db).total_bytes >= 0,
        old(db).counted() ==> final(db).counted(),
        r == dangling@.len() + size_mismatches@.len(),
        final(db)@.objects == objects_less(
            old(db)@.objects,
            reported(rows_view(dangling@), mismatches_view(size_mismatches@)),
        ),
        final(db)@.pins == pins_less(
            old(db)@.pins,
            reported(rows_view(dangling@), mismatches_view(size_mismatches@)),
        ),
{
    let ghost d = rows_view(dangling@);
    let ghost m = mismatches_view(size_mismatches@);
    proof {
        let none = reported(d.take(0), m.take(0));
        assert(db@.objects =~= objects_less(db@.objects, none));
        assert(db@.pins =~= pins_less(db@.pins, none));
    }
    let mut i: usize = 0;
    while i < dangling.len()
        invariant
            i <= dangling@.len(),
            d == rows_view(dangling@),
            db.wf(),
            db.total_bytes >= 0,
            old(db).counted() ==> db.counted(),
            db@.objects == objects_less(old(db)@.objects, reported(d.take(i as int), m.take(0))),
            db@.pins == pins_less(old(db)@.pins, reported(d.take(i as int), m.take(0))),
        decreases dangling@.len() - i,
    {
        let ghost gone = reported(d.take(i as int), m.take(0));
        let ghost before = db@;
        let _ = delete_object(db, dangling[i].store_path_hash.as_str());
        proof {
            let h = d[i as int].0;
            let next = reported(d.take(i as int + 1), m.take(0));
            assert(d.take(i as int + 1) =~= d.take(i as int).push(d[i as int]));
            one_more_row(d.take(i as int), m.take(0), d[i as int]);
            assert(next =~= gone.insert(h));
            assert(db@.objects =~= objects_less(old(db)@.objects, next));
            assert(db@.pins =~= pins_less(old(db)@.pins, next));
        }
        i += 1;
    }
    assert(d.take(i as int) =~= d);
    let mut k: usize = 0;
    while k < size_mismatches.len()
        invariant
            k <= size_mismatches@.len(),
            m == mismatches_view(size_mismatches@),
            db.wf(),
            db.total_bytes >= 0,
            old(db).counted() ==> db.counted(),
            db@.objects == objects_less(old(db)@.objects, reported(d, m.take(k as int))),
            db@.pins == pins_less(old(db)@.pins, reported(d, m.take(k as int))),
        decreases size_mismatches@.len() - k,
    {
        let ghost gone = reported(d, m.take(k as int));
        let _ = delete_object(db, size_mismatches[k].store_path_hash.as_str());
        proof {
            let h = m[k as int].0;
            let next = reported(d, m.take(k as int + 1));
            assert(m.take(k as int + 1) =~= m.take(k as int).push(m[k as int]));
            one_more_mismatch(d, m.take(k as int), m[k as int]);
            assert(next =~= gone.insert(h));
            assert(db@.objects =~= objects_less(old(db)@.objects, next));
            assert(db@.pins =~= pins_less(old(db)@.pins, next));
        }
        k += 1;
    }
    assert(m.take(k as int) =~= m);
    dangling.len() + size_mismatches.len()
}

proof fn one_more_row(
    d: Seq<(Seq<char>, Seq<char>)>,
    m: Seq<(Seq<char>, Seq<char>, i64, i64)>,
    row: (Seq<char>, Seq<char>),
)
    ensures
        reported(d.push(row), m) == reported(d, m).insert(row.0),
{
    let more = d.push(row);
    assert forall|h: Seq<char>| #[trigger] reported(more, m).contains(h) == reported(d, m).insert(
        row.0,
    ).contains(h) by {
        if h == row.0 {
            assert(more[d.len() as int].0 == h);
        }
        if exists|i: int| 0 <= i < d.len() && (#[trigger] d[i]).0 == h {
            let i = choose|i: int| 0 <= i < d.len() && (#[trigger] d[i]).0 == h;
            assert(more[i].0 == h);
        }
        if exists|i: int| 0 <= i < more.len() && (#[trigger] more[i]).0 == h {
            let i = choose|i: int| 0 <= i < more.len() && (#[trigger] more[i]).0 == h;
            if i < d.len() {
                assert(d[i].0 == h);
            }
        }
    }
    assert(reported(more, m) =~= reported(d, m).insert(row.0));
}

proof fn one_more_mismatch(
    d: Seq<(Seq<char>, Seq<char>)>,
    m: Seq<(Seq<char>, Seq<char>, i64, i64)>,
    row: (Seq<char>, Seq<char>, i64, i64),
)
    ensures
        reported(d, m.push(row)) == reported(d, m).insert(row.0),
{
    let more = m.push(row);
    assert forall|h: Seq<char>| #[trigger] reported(d, more).contains(h) == reported(d, m).insert(
        row.0,
    ).contains(h) by {
        if h == row.0 {
            assert(more[m.len() as int].0 == h);
        }
        if exists|i: int| 0 <= i < m.len() && (#[trigger] m[i]).0 == h {
            let i = choose|i: int| 0 <= i < m.len() && (#[trigger] m[i]).0 == h;
            assert(more[i].0 == h);
        }
        if exists|i: int| 0 <= i < more.len() && (#[trigger] more[i]).0 == h {
            let i = choose|i: int| 0 <= i < more.len() && (#[trigger] more[i]).0 == h;
            if i < m.len() {
                assert(m[i].0 == h);
            }
        }
    }
    assert(reported(d, more) =~= reported(d, m).insert(row.0));
}

/// What a check found and did.
#[derive(Debug, PartialEq, Eq)]
pub struct FsckReport {
    /// Rows without a blob.
    pub dangling: Vec<FsckRow>,
    /// Rows whose blob has another size.
    pub size_mismatches: Vec<FsckSizeMismatch>,
    /// Keys of blobs without a row, which the sweep will delete.
    pub orphans: Vec<String>,
    /// Rows deleted.
    pub repaired: usize,
    /// Uploads were to be turned away meanwhile.
    pub quiesced: bool,
    /// The uploads in progress ended in time. Where they did not, nothing is
    /// repaired.
    pub quiesce_drained: bool,
}

/// What is asked of a check.
#[derive(Debug, Clone, Copy, PartialEq, Eq, Structural)]
pub struct FsckOptions {
    /// Delete what is reported.
    pub repair: bool,
    /// Compare the sizes too.
    pub verify_sizes: bool,
    /// Turn uploads away meanwhile, and wait for those in progress.
    pub quiesce: bool,
}

/// The row under `h` is one that a check reports.
pub open spec fn is_found(l: Listing, verify_sizes: bool, v: RowView) -> bool {
    dangles(l, v.object.store_path_hash, v.created_at as int) || (verify_sizes && differs(
        l,
        v.object.store_path_hash,
        v.object.file_size,
    ))
}

/// Exactly the rows that are found are reported.
proof fn reports_what_is_found(l: Listing, rows: Seq<Brief>, h: Seq<char>, verify_sizes: bool)
    ensures
        reported(
            dangling_of(l, rows),
            if verify_sizes {
                mismatches_of(l, rows)
            } else {
                Seq::empty()
            },
        ).contains(h) <==> exists|i: int|
            #![trigger rows[i]]
            0 <= i < rows.len() && rows[i].hash@ == h && (dangles(
                l,
                h,
                rows[i].created_at as int,
            ) || (verify_sizes && differs(l, h, rows[i].file_size))),
    decreases rows.len(),
{
    let d = dangling_of(l, rows);
    let m = if verify_sizes {
        mismatches_of(l, rows)
    } else {
        Seq::empty()
    };
    if rows.len() > 0 {
        let init = rows.drop_last();
        let row = rows.last();
        reports_what_is_found(l, init, h, verify_sizes);
        let d0 = dangling_of(l, init);
        let m0 = if verify_sizes {
            mismatches_of(l, init)
        } else {
            Seq::empty()
        };
        if dangles(l, row.hash@, row.created_at as int) {
            one_more_row(d0, m0, (row.hash@, row.name@));
        }
        if verify_sizes && differs(l, row.hash@, row.file_size) {
            one_more_mismatch(
                d0,
                m0,
                (row.hash@, row.name@, row.file_size, blob_size(l.blobs, row.hash@)->0),
            );
        }
        let found = |i: int|
            0 <= i < rows.len() && rows[i].hash@ == h && (dangles(
                l,
                h,
                rows[i].created_at as int,
            ) || (verify_sizes && differs(l, h, rows[i].file_size)));
        assert forall|i: int| 0 <= i < init.len() implies #[trigger] init[i] == rows[i] by {}
        if exists|i: int|
            #![trigger init[i]]
            0 <= i < init.len() && init[i].hash@ == h && (dangles(l, h, init[i].created_at as int)
                || (verify_sizes && differs(l, h, init[i].file_size))) {
            let i = choose|i: int|
                #![trigger init[i]]
                0 <= i < init.len() && init[i].hash@ == h && (dangles(
                    l,
                    h,
                    init[i].created_at as int,
                ) || (verify_sizes && differs(l, h, init[i].file_size)));
            assert(found(i));
            assert(rows[i].hash@ == h);
        }
        if exists|i: int| #![trigger rows[i]] found(i) {
            let i = choose|i: int| #![trigger rows[i]] found(i);
            if i < init.len() {
                assert(init[i].hash@ == h);
            } else {
                assert(rows[i] == row);
            }
        }
        assert(rows[rows.len() - 1] == row);
    }
}

/// `rows` tells of the rows of the catalogue, in order.
pub open spec fn tells_of(rows: Seq<Brief>, db: Db) -> bool {
    rows.len() == db.objects.rows@.len() && forall|i: int|
        0 <= i < rows.len() ==> brief_of(#[trigger] rows[i], db.objects.rows@[i]@)
}

/// One check. The blobs must have been listed before: an upload that lands in
/// between then looks like a row that the guards leave alone. Where uploads
/// were to drain and did not, what is found is reported and nothing deleted.
pub fn run(
    db: &mut Db,
    blobs: &Vec<Blob>,
    in_flight: &InFlight,
    grace_secs: u64,
    now: i64,
    options: FsckOptions,
    drained: bool,
) -> (r: FsckReport)
    requires
        old(db).wf(),
        old(db).total_bytes >= 0,
        in_flight.wf(),
        old(db).objects.rows@.len() * 2 <= usize::MAX,
    ensures
        final(db).wf(),
        final(db).total_bytes >= 0,
        old(db).counted() ==> final(db).counted(),
        r.quiesced == options.quiesce,
        r.quiesce_drained == (!options.quiesce || drained),
        texts(r.orphans@) == orphans_of(
            blobs@,
            old(db)@.objects.dom(),
            in_flight@.dom(),
            grace_secs,
        ),
        !(options.repair && r.quiesce_drained) ==> r.repaired == 0 && *final(db) == *old(db),
        options.repair && r.quiesce_drained ==> r.repaired == r.dangling@.len()
            + r.size_mismatches@.len(),
        ({
            let l = Listing {
                blobs: blobs@,
                held: in_flight@.dom(),
                grace: grace_secs as int,
                now: now as int,
            };
            let found = reported(rows_view(r.dangling@), mismatches_view(r.size_mismatches@));
            &&& forall|h: Seq<char>| #[trigger]
                found.contains(h) <==> old(db)@.objects.dom().contains(h) && is_found(
                    l,
                    options.verify_sizes,
                    old(db)@.objects[h],
                )
            &&& options.repair && r.quiesce_drained ==> {
                &&& final(db)@.objects == objects_less(old(db)@.objects, found)
                &&& final(db)@.pins == pins_less(old(db)@.pins, found)
            }
            &&& exists|rows: Seq<Brief>| #[trigger]
                tells_of(rows, *old(db)) && rows_view(r.dangling@) == dangling_of(l, rows)
                    && mismatches_view(r.size_mismatches@) == if options.verify_sizes {
                    mismatches_of(l, rows)
                } else {
                    Seq::empty()
                }
        }),
{
    let ghost l = Listing {
        blobs: blobs@,
        held: in_flight@.dom(),
        grace: grace_secs as int,
        now: now as int,
    };
    let quiesce_drained = !options.quiesce || drained;
    let rows = all_objects_brief(db);
    let (dangling, size_mismatches) = classify_rows(
        &rows,
        blobs,
        in_flight,
        grace_secs,
        now,
        options.verify_sizes,
    );
    assert(tells_of(rows@, *db));
    let known = all_hashes(db);
    let orphans = orphan_keys(blobs, &known, in_flight, grace_secs);
    let ghost found = reported(rows_view(dangling@), mismatches_view(size_mismatches@));
    proof {
        dangling_is_short(l, rows@);
        mismatches_are_few(l, rows@);
        assert(rows_view(dangling@).len() == dangling@.len());
        assert(mismatches_view(size_mismatches@).len() == size_mismatches@.len());
        assert forall|h: Seq<char>| #[trigger] found.contains(h) <==> db@.objects.dom().contains(h)
            && is_found(l, options.verify_sizes, db@.objects[h]) by {
            reports_what_is_found(l, rows@, h, options.verify_sizes);
            crate::db::rows_stand_under_their_hash(db);
            if db@.objects.dom().contains(h) {
                let i = choose|i: int| 0 <= i < rows@.len() && (#[trigger] rows@[i]).hash@ == h;
                assert(brief_of(rows@[i], db@.objects[h]));
            }
        }
    }
    let repaired = if options.repair && quiesce_drained {
        apply_repair(db, &dangling, &size_mismatches)
    } else {
        0
    };
    FsckReport {
        dangling,
        size_mismatches,
        orphans,
        repaired,
        quiesced: options.quiesce,
        quiesce_drained,
    }
}

proof fn dangling_is_short(l: Listing, rows: Seq<Brief>)
    ensures
        dangling_of(l, rows).len() <= rows.len(),
    decreases rows.len(),
{
    if rows.len() > 0 {
        dangling_is_short(l, rows.drop_last());
    }
}

proof fn mismatches_are_few(l: Listing, rows: Seq<Brief>)
    ensures
        mismatches_of(l, rows).len() <= rows.len(),
    decreases rows.len(),
{
    if rows.len() > 0 {
        mismatches_are_few(l, rows.drop_last());
    }
}

/// A repair leaves nothing that another check would find against the same
/// blobs.
pub proof fn repair_leaves_nothing_to_find(
    l: Listing,
    verify_sizes: bool,
    before: Map<Seq<char>, RowView>,
    found: Set<Seq<char>>,
    h: Seq<char>,
)
    requires
        forall|h: Seq<char>| #[trigger]
            found.contains(h) <==> before.dom().contains(h) && is_found(l, verify_sizes, before[h]),
        objects_less(before, found).dom().contains(h),
    ensures
        !is_found(l, verify_sizes, objects_less(before, found)[h]),
{
}

/// Blob `j` is what the listing says of `hash`: it has the key of its blob, and
/// no later entry has.
pub open spec fn is_listed(blobs: Seq<Blob>, hash: Seq<char>, j: int) -> bool {
    &&& 0 <= j < blobs.len()
    &&& blobs[j].key@ == "nar/"@ + hash + ".nar.zst"@
    &&& forall|k: int|
        j < k < blobs.len() ==> (#[trigger] blobs[k]).key@ != "nar/"@ + hash + ".nar.zst"@
}

/// No entry of the listing has the key of the blob of `hash`.
pub open spec fn is_unlisted(blobs: Seq<Blob>, hash: Seq<char>) -> bool {
    forall|k: int|
        0 <= k < blobs.len() ==> (#[trigger] blobs[k]).key@ != "nar/"@ + hash + ".nar.zst"@
}

/// The listed size is that of the entry, and an unlisted blob has none.
proof fn listed_size(blobs: Seq<Blob>, hash: Seq<char>, j: int)
    requires
        hash.len() > 0,
    ensures
        is_listed(blobs, hash, j) ==> blob_size(blobs, hash) == Some(blobs[j].size),
        is_unlisted(blobs, hash) ==> blob_size(blobs, hash) is None,
    decreases blobs.len(),
{
    if blobs.len() > 0 {
        let front = blobs.drop_last();
        let last = blobs.last();
        listed_size(front, hash, j);
        crate::storage::key_round_trip(hash);
        if hash_in_key(last.key@) == Some(hash) {
            crate::storage::key_is_the_only_one(last.key@, hash);
            assert(blobs[blobs.len() - 1].key@ == "nar/"@ + hash + ".nar.zst"@);
        } else {
            assert(forall|k: int| 0 <= k < front.len() ==> #[trigger] front[k] == blobs[k]);
        }
    }
}

/// Where the blob of a hash is listed or not.
proof fn listed_or_not(blobs: Seq<Blob>, hash: Seq<char>)
    ensures
        is_unlisted(blobs, hash) || exists|j: int| #[trigger] is_listed(blobs, hash, j),
    decreases blobs.len(),
{
    if !is_unlisted(blobs, hash) {
        let n = blobs.len() as int;
        if blobs[n - 1].key@ == "nar/"@ + hash + ".nar.zst"@ {
            assert(is_listed(blobs, hash, n - 1));
        } else {
            let front = blobs.drop_last();
            assert(forall|k: int| 0 <= k < front.len() ==> #[trigger] front[k] == blobs[k]);
            let k = choose|k: int|
                0 <= k < n && (#[trigger] blobs[k]).key@ == "nar/"@ + hash + ".nar.zst"@;
            assert(front[k].key@ == "nar/"@ + hash + ".nar.zst"@);
            listed_or_not(front, hash);
            let j = choose|j: int| #[trigger] is_listed(front, hash, j);
            assert forall|x: int| j < x < blobs.len() implies (#[trigger] blobs[x]).key@ != "nar/"@
                + hash + ".nar.zst"@ by {
                if x < n - 1 {
                    assert(front[x] == blobs[x]);
                }
            }
            assert(is_listed(blobs, hash, j));
        }
    }
}

/// One more entry is one more member.
proof fn one_more<T>(list: Seq<T>, last: T, v: T)
    ensures
        list.push(last).contains(v) <==> list.contains(v) || v == last,
{
    let all = list.push(last);
    assert(all[list.len() as int] == last);
    if list.contains(v) {
        assert(all[list.index_of(v)] == v);
    }
    if all.contains(v) {
        let i = all.index_of(v);
        if i < list.len() {
            assert(list[i] == v);
        }
    }
}

/// Every mismatch tells of a row whose listed blob has another size, and of
/// each such row there is one.
proof fn mismatch_members(l: Listing, rows: Seq<Brief>, m: (Seq<char>, Seq<char>, i64, i64))
    ensures
        mismatches_of(l, rows).contains(m) <==> exists|i: int|
            0 <= i < rows.len() && (#[trigger] rows[i]).hash@ == m.0 && rows[i].name@ == m.1
                && rows[i].file_size == m.2 && blob_size(l.blobs, m.0) == Some(m.3) && m.2 != m.3,
    decreases rows.len(),
{
    if rows.len() > 0 {
        let init = rows.drop_last();
        let row = rows.last();
        mismatch_members(l, init, m);
        assert(forall|k: int| 0 <= k < init.len() ==> #[trigger] init[k] == rows[k]);
        assert(rows[rows.len() - 1] == row);
        if differs(l, row.hash@, row.file_size) {
            one_more(
                mismatches_of(l, init),
                (row.hash@, row.name@, row.file_size, blob_size(l.blobs, row.hash@)->0),
                m,
            );
        }
        if exists|i: int|
            0 <= i < init.len() && (#[trigger] init[i]).hash@ == m.0 && init[i].name@ == m.1
                && init[i].file_size == m.2 && blob_size(l.blobs, m.0) == Some(m.3) && m.2 != m.3 {
            let i = choose|i: int|
                0 <= i < init.len() && (#[trigger] init[i]).hash@ == m.0 && init[i].name@ == m.1
                    && init[i].file_size == m.2 && blob_size(l.blobs, m.0) == Some(m.3) && m.2
                    != m.3;
            assert(rows[i].hash@ == m.0);
        }
        if exists|i: int|
            0 <= i < rows.len() && (#[trigger] rows[i]).hash@ == m.0 && rows[i].name@ == m.1
                && rows[i].file_size == m.2 && blob_size(l.blobs, m.0) == Some(m.3) && m.2 != m.3 {
            let i = choose|i: int|
                0 <= i < rows.len() && (#[trigger] rows[i]).hash@ == m.0 && rows[i].name@ == m.1
                    && rows[i].file_size == m.2 && blob_size(l.blobs, m.0) == Some(m.3) && m.2
                    != m.3;
            if i < init.len() {
                assert(init[i].hash@ == m.0);
            }
        }
    } else {
        assert(!mismatches_of(l, rows).contains(m));
    }
}

/// See [`mismatch_members`], for the rows without a blob.
proof fn dangling_members(l: Listing, rows: Seq<Brief>, d: (Seq<char>, Seq<char>))
    ensures
        dangling_of(l, rows).contains(d) <==> exists|i: int|
            0 <= i < rows.len() && (#[trigger] rows[i]).hash@ == d.0 && rows[i].name@ == d.1
                && blob_size(l.blobs, d.0) is None && !l.held.contains(d.0) && l.now
                - rows[i].created_at >= l.grace,
    decreases rows.len(),
{
    if rows.len() > 0 {
        let init = rows.drop_last();
        let row = rows.last();
        dangling_members(l, init, d);
        assert(forall|k: int| 0 <= k < init.len() ==> #[trigger] init[k] == rows[k]);
        assert(rows[rows.len() - 1] == row);
        if dangles(l, row.hash@, row.created_at as int) {
            one_more(dangling_of(l, init), (row.hash@, row.name@), d);
        }
        if exists|i: int|
            0 <= i < init.len() && (#[trigger] init[i]).hash@ == d.0 && init[i].name@ == d.1
                && blob_size(l.blobs, d.0) is None && !l.held.contains(d.0) && l.now
                - init[i].created_at >= l.grace {
            let i = choose|i: int|
                0 <= i < init.len() && (#[trigger] init[i]).hash@ == d.0 && init[i].name@ == d.1
                    && blob_size(l.blobs, d.0) is None && !l.held.contains(d.0) && l.now
                    - init[i].created_at >= l.grace;
            assert(rows[i].hash@ == d.0);
        }
        if exists|i: int|
            0 <= i < rows.len() && (#[trigger] rows[i]).hash@ == d.0 && rows[i].name@ == d.1
                && blob_size(l.blobs, d.0) is None && !l.held.contains(d.0) && l.now
                - rows[i].created_at >= l.grace {
            let i = choose|i: int|
                0 <= i < rows.len() && (#[trigger] rows[i]).hash@ == d.0 && rows[i].name@ == d.1
                    && blob_size(l.blobs, d.0) is None && !l.held.contains(d.0) && l.now
                    - rows[i].created_at >= l.grace;
            if i < init.len() {
                assert(init[i].hash@ == d.0);
            }
        }
    } else {
        assert(!dangling_of(l, rows).contains(d));
    }
}

/// Every row whose blob is listed is reported with both sizes if, and only if,
/// they are different, in either direction, and never as without a blob.
pub proof fn sizes_are_compared(l: Listing, rows: Seq<Brief>, i: int, j: int)
    requires
        0 <= i < rows.len(),
        rows[i].hash@.len() > 0,
        is_listed(l.blobs, rows[i].hash@, j),
    ensures
        mismatches_of(l, rows).contains(
            (rows[i].hash@, rows[i].name@, rows[i].file_size, l.blobs[j].size),
        ) <==> rows[i].file_size != l.blobs[j].size,
        !dangling_of(l, rows).contains((rows[i].hash@, rows[i].name@)),
{
    let h = rows[i].hash@;
    listed_size(l.blobs, h, j);
    mismatch_members(l, rows, (h, rows[i].name@, rows[i].file_size, l.blobs[j].size));
    dangling_members(l, rows, (h, rows[i].name@));
}

/// Every row whose blob is not listed is reported as without one if, and only
/// if, it is past the grace and nobody is at work on it.
pub proof fn missing_blobs_are_found(l: Listing, rows: Seq<Brief>, i: int)
    requires
        0 <= i < rows.len(),
        rows[i].hash@.len() > 0,
        is_unlisted(l.blobs, rows[i].hash@),
        forall|k: int|
            0 <= k < rows.len() && (#[trigger] rows[k]).hash@ == rows[i].hash@ ==> rows[k]
                == rows[i],
    ensures
        dangling_of(l, rows).contains((rows[i].hash@, rows[i].name@)) <==> !l.held.contains(
            rows[i].hash@,
        ) && rows[i].created_at + l.grace <= l.now,
        forall|m: (Seq<char>, Seq<char>, i64, i64)|
            #[trigger] mismatches_of(l, rows).contains(m) ==> m.0 != rows[i].hash@,
{
    let h = rows[i].hash@;
    listed_size(l.blobs, h, 0);
    dangling_members(l, rows, (h, rows[i].name@));
    assert forall|m: (Seq<char>, Seq<char>, i64, i64)| #[trigger]
        mismatches_of(l, rows).contains(m) implies m.0 != h by {
        mismatch_members(l, rows, m);
    }
}

/// Reports speak of rows that there are.
pub proof fn reports_tell_of_rows(l: Listing, rows: Seq<Brief>, k: int)
    ensures
        0 <= k < mismatches_of(l, rows).len() ==> exists|i: int|
            0 <= i < rows.len() && (#[trigger] rows[i]).hash@ == mismatches_of(l, rows)[k].0
                && rows[i].file_size == mismatches_of(l, rows)[k].2 && mismatches_of(l, rows)[k].2
                != mismatches_of(l, rows)[k].3,
        0 <= k < dangling_of(l, rows).len() ==> exists|i: int|
            0 <= i < rows.len() && (#[trigger] rows[i]).hash@ == dangling_of(l, rows)[k].0 && (
            rows[i].hash@.len() > 0 ==> is_unlisted(l.blobs, rows[i].hash@)),
{
    if 0 <= k < mismatches_of(l, rows).len() {
        let m = mismatches_of(l, rows)[k];
        assert(mismatches_of(l, rows).contains(m));
        mismatch_members(l, rows, m);
    }
    if 0 <= k < dangling_of(l, rows).len() {
        let d = dangling_of(l, rows)[k];
        assert(dangling_of(l, rows).contains(d));
        dangling_members(l, rows, d);
        listed_or_not(l.blobs, d.0);
        if d.0.len() > 0 && !is_unlisted(l.blobs, d.0) {
            let j = choose|j: int| #[trigger] is_listed(l.blobs, d.0, j);
            listed_size(l.blobs, d.0, j);
        }
    }
}

/// After a repair that compares sizes, every row with a listed blob has the
/// blob's size, and every row without one is young or being worked on.
pub proof fn repaired_rows_match_their_blobs(
    l: Listing,
    verify_sizes: bool,
    before: Map<Seq<char>, RowView>,
    found: Set<Seq<char>>,
    h: Seq<char>,
    j: int,
)
    requires
        forall|x: Seq<char>| #[trigger]
            found.contains(x) <==> before.dom().contains(x) && is_found(l, verify_sizes, before[x]),
        before.dom().contains(h),
        before[h].object.store_path_hash == h,
        h.len() > 0,
    ensures
        objects_less(before, found).dom().contains(h) ==> objects_less(before, found)[h]
            == before[h],
        verify_sizes && is_listed(l.blobs, h, j) ==> (objects_less(before, found).dom().contains(h)
            <==> before[h].object.file_size == l.blobs[j].size),
        !verify_sizes && is_listed(l.blobs, h, j) ==> objects_less(before, found).dom().contains(h),
        is_unlisted(l.blobs, h) ==> (objects_less(before, found).dom().contains(h)
            <==> l.held.contains(h) || before[h].created_at + l.grace > l.now),
{
    listed_size(l.blobs, h, j);
}

/// Whether the uploads that a repair waits for have ended.
pub fn is_drained(in_flight: &InFlight) -> (r: bool)
    ensures
        r == (crate::inflight::count_uploads(in_flight.held.rows@) == 0),
{
    in_flight.uploads() == 0
}

/// A repair deletes the rows that are reported, as lacking a blob or as of another
/// size, and no others.
pub proof fn repairs_delete_what_is_reported(
    objects: Map<Seq<char>, RowView>,
    dangling: Seq<(Seq<char>, Seq<char>)>,
    mismatches: Seq<(Seq<char>, Seq<char>, i64, i64)>,
    h: Seq<char>,
    i: int,
)
    ensures
        0 <= i < dangling.len() && dangling[i].0 == h ==> !objects_less(
            objects,
            reported(dangling, mismatches),
        ).dom().contains(h),
        0 <= i < mismatches.len() && mismatches[i].0 == h ==> !objects_less(
            objects,
            reported(dangling, mismatches),
        ).dom().contains(h),
        objects.dom().contains(h) && (forall|k: int|
            0 <= k < dangling.len() ==> (#[trigger] dangling[k]).0 != h) && (forall|k: int|
            0 <= k < mismatches.len() ==> (#[trigger] mismatches[k]).0 != h) ==> objects_less(
            objects,
            reported(dangling, mismatches),
        ).dom().contains(h),
{
}

/// A report holds the rows as they are found: hash and name of those without a
/// blob, and of those of another size both sizes.
pub proof fn reports_hold_what_was_found(
    rows: Seq<FsckRow>,
    others: Seq<FsckSizeMismatch>,
    i: int,
)
    ensures
        0 <= i < rows.len() ==> rows_view(rows)[i] == (rows[i].store_path_hash@, rows[i].name@),
        rows_view(rows).len() == rows.len(),
        0 <= i < others.len() ==> mismatches_view(others)[i] == (
            others[i].store_path_hash@,
            others[i].name@,
            others[i].db_size,
            others[i].s3_size,
        ),
        mismatches_view(others).len() == others.len(),
{
}

/// Each row is checked by itself and reported at most once, and the reports stand
/// in the order of the rows.
pub proof fn rows_are_checked_one_by_one(l: Listing, a: Seq<Brief>, b: Seq<Brief>, row: Brief)
    ensures
        mismatches_of(l, a + b) == mismatches_of(l, a) + mismatches_of(l, b),
        dangling_of(l, a + b) == dangling_of(l, a) + dangling_of(l, b),
        mismatches_of(l, seq![row]).len() + dangling_of(l, seq![row]).len() <= 1,
    decreases b.len(),
{
    assert(seq![row].drop_last() =~= Seq::<Brief>::empty());
    assert(mismatches_of(l, Seq::<Brief>::empty()).len() == 0);
    assert(dangling_of(l, Seq::<Brief>::empty()).len() == 0);
    if b.len() == 0 {
        assert(a + b =~= a);
        assert(mismatches_of(l, a) + mismatches_of(l, b) =~= mismatches_of(l, a));
        assert(dangling_of(l, a) + dangling_of(l, b) =~= dangling_of(l, a));
    } else {
        rows_are_checked_one_by_one(l, a, b.drop_last(), row);
        assert((a + b).drop_last() =~= a + b.drop_last());
        assert((a + b).last() == b.last());
        assert(mismatches_of(l, a + b) =~= mismatches_of(l, a) + mismatches_of(l, b));
        assert(dangling_of(l, a + b) =~= dangling_of(l, a) + dangling_of(l, b));
    }
}

/// A report's entries are seen with the fields that they have.
pub proof fn entries_are_seen_as_they_are(
    rows: Seq<FsckRow>,
    mismatches: Seq<FsckSizeMismatch>,
    i: int,
    j: int,
)
    requires
        0 <= i < rows.len(),
        0 <= j < mismatches.len(),
    ensures
        rows_view(rows).len() == rows.len(),
        rows_view(rows)[i].0 == rows[i].store_path_hash@,
        rows_view(rows)[i].1 == rows[i].name@,
        mismatches_view(mismatches).len() == mismatches.len(),
        mismatches_view(mismatches)[j].0 == mismatches[j].store_path_hash@,
        mismatches_view(mismatches)[j].1 == mismatches[j].name@,
        mismatches_view(mismatches)[j].2 == mismatches[j].db_size,
        mismatches_view(mismatches)[j].3 == mismatches[j].s3_size,
{
}

} // verus!
