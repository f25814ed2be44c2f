//! The operator's commands to the receiving service, which owns every write to
//! the catalogue.

use vstd::prelude::*;
use vstd::string::*;
use vstd::utf8::encode_utf8;

use crate::db::{
    all_hashes, delete_object, get_object, object_exists, objects_less, pin, pins_less,
    sum_sizes, unpin, update_sigs, Db, DbError, ObjectView, PinView, RowView, PRUNE_MIN_AGE,
};
use crate::fsck::{FsckOptions, FsckReport};
use crate::gc::PassResult;
use crate::inflight::{count_uploads, InFlight};
use crate::encoding::standard_base64;
use crate::narinfo::{
    ed25519_signature, fingerprint_text, sign, signature_text, NoSigningKeys, SigningKeyFile,
};
use crate::prune::{
    cyclic, prune, pruned_bytes, pruned_bytes_fit, pruned_hashes, pruned_view,
    prunes_take_only_what_nothing_needs,
};
use crate::storage::{blob_key, key_for};
use crate::text::{same_texts, texts};

verus! {

/// A command.
#[derive(Debug, PartialEq, Eq)]
pub enum Request {
    /// Objects, usage against quota, uploads in progress.
    Status,
    /// A pass of the collection now.
    GcRun,
    /// Sign every object with the current keys.
    Resign,
    /// Remove objects, rows and blobs, whatever refers to them.
    Delete {
        /// Store path hashes.
        hashes: Vec<String>,
    },
    /// Protect an object and all that it refers to.
    Pin {
        /// The operator's name for the pin.
        name: String,
        /// Store path hash.
        hash: String,
        /// Unix time from which it protects nothing.
        expires_at: Option<i64>,
    },
    /// Remove a pin.
    Unpin {
        /// Its name.
        name: String,
    },
    /// Check the rows against the blobs.
    Fsck {
        /// Delete what is found.
        repair: bool,
        /// Compare sizes too.
        verify_sizes: bool,
        /// Turn uploads away meanwhile.
        quiesce: bool,
    },
    /// Remove what was last pushed before a time, and nothing now needs.
    Prune {
        /// Unix time.
        before: i64,
        /// Only say what would be removed.
        dry_run: bool,
    },
    /// Copy the catalogue.
    Backup {
        /// Where to.
        path: String,
    },
}

/// The reply to a command.
#[derive(Debug, PartialEq, Eq)]
pub enum Response {
    /// To [`Request::Status`].
    Status {
        /// How many objects there are.
        objects: i64,
        /// Bytes that their blobs take.
        total_bytes: i64,
        /// The quota; `None` is no limit.
        quota_bytes: Option<u64>,
        /// Uploads in progress.
        uploads_in_flight: usize,
    },
    /// To [`Request::GcRun`].
    Gc {
        /// Objects removed.
        evicted: usize,
        /// Bytes reclaimed.
        bytes_freed: i64,
        /// Everything left is referenced, and usage still too high.
        candidates_exhausted: bool,
    },
    /// To [`Request::Resign`].
    Resign {
        /// Objects whose signatures changed.
        resigned: usize,
    },
    /// To [`Request::Delete`].
    Delete {
        /// Objects removed.
        deleted: usize,
        /// Bytes reclaimed.
        bytes_freed: i64,
        /// Hashes that were not there: a typo would be hidden otherwise.
        missing: Vec<String>,
    },
    /// To [`Request::Pin`].
    Pin,
    /// To [`Request::Unpin`].
    Unpin {
        /// There was such a pin.
        removed: bool,
    },
    /// To [`Request::Fsck`].
    Fsck(FsckReport),
    /// To [`Request::Prune`].
    Prune {
        /// Basenames of what is removed.
        pruned: Vec<String>,
        /// Bytes reclaimed.
        bytes_freed: i64,
    },
    /// To [`Request::Backup`].
    Backup {
        /// Bytes of the copy.
        bytes: u64,
    },
    /// The command failed.
    Error {
        /// What the operator is told.
        message: String,
    },
}

/// How the objects stand: their number, usage, and the uploads in progress.
pub fn status(db: &Db, quota_bytes: Option<u64>, in_flight: &InFlight) -> (r: Response)
    requires
        db.objects.rows@.len() <= i64::MAX,
    ensures
        r matches Response::Status {
            objects,
            total_bytes,
            quota_bytes: quota,
            uploads_in_flight,
        } && objects == db.objects.rows@.len() && total_bytes == db.total_bytes && quota
            == quota_bytes && uploads_in_flight == count_uploads(in_flight.held.rows@),
{
    Response::Status {
        objects: db.objects.rows.len() as i64,
        total_bytes: db.total_bytes,
        quota_bytes,
        uploads_in_flight: in_flight.uploads(),
    }
}

/// Of `hashes`, those that are removed, in order: each that is there, the
/// first time.
pub open spec fn removed_of(there: Set<Seq<char>>, hashes: Seq<Seq<char>>) -> Seq<Seq<char>>
    decreases hashes.len(),
{
    if hashes.len() == 0 {
        Seq::empty()
    } else {
        let init = hashes.drop_last();
        if there.contains(hashes.last()) && !init.contains(hashes.last()) {
            removed_of(there, init).push(hashes.last())
        } else {
            removed_of(there, init)
        }
    }
}

/// Of `hashes`, those that are not there when their turn comes, in order.
pub open spec fn missing_of(there: Set<Seq<char>>, hashes: Seq<Seq<char>>) -> Seq<Seq<char>>
    decreases hashes.len(),
{
    if hashes.len() == 0 {
        Seq::empty()
    } else {
        let init = hashes.drop_last();
        if there.contains(hashes.last()) && !init.contains(hashes.last()) {
            missing_of(there, init)
        } else {
            missing_of(there, init).push(hashes.last())
        }
    }
}

/// The blob keys of `hashes`.
pub open spec fn keys_of(hashes: Seq<Seq<char>>) -> Seq<Seq<char>> {
    hashes.map_values(|h: Seq<char>| blob_key(h))
}

/// Of `before` the objects under `hashes` and the pins on them are gone, and
/// `deleted`, `freed`, `missing` and `keys` tell of it.
pub open spec fn delete_done(
    before: Db,
    after: Db,
    hashes: Seq<Seq<char>>,
    deleted: usize,
    freed: i64,
    missing: Seq<Seq<char>>,
    keys: Seq<Seq<char>>,
) -> bool {
    &&& after@.objects == objects_less(before@.objects, hashes.to_set())
    &&& after@.pins == pins_less(before@.pins, hashes.to_set())
    &&& deleted == removed_of(before@.objects.dom(), hashes).len()
    &&& freed == sum_sizes(before.objects.rows@) - sum_sizes(after.objects.rows@)
    &&& missing == missing_of(before@.objects.dom(), hashes)
    &&& keys == keys_of(removed_of(before@.objects.dom(), hashes))
}

/// Removes objects outright, rows first: returns how many, the bytes that they
/// took, the hashes that were not there, and the keys of the blobs that are to
/// be deleted now. Nobody asks what still refers to them: that is what the
/// command is for.
pub fn delete(db: &mut Db, hashes: &Vec<String>) -> (r: (usize, i64, Vec<String>, Vec<String>))
    requires
        old(db).wf(),
        old(db).total_bytes >= 0,
        sum_sizes(old(db).objects.rows@) <= i64::MAX,
    ensures
        final(db).wf(),
        final(db).total_bytes >= 0,
        old(db).counted() ==> final(db).counted(),
        delete_done(*old(db), *final(db), texts(hashes@), r.0, r.1, texts(r.2@), texts(r.3@)),
{
    let ghost all = texts(hashes@);
    let ghost there = db@.objects.dom();
    let mut deleted: usize = 0;
    let mut bytes_freed: i64 = 0;
    let mut missing: Vec<String> = Vec::new();
    let mut keys: Vec<String> = Vec::new();
    let mut i: usize = 0;
    proof {
        let none = all.take(0).to_set();
        assert(db@.objects =~= objects_less(db@.objects, none));
        assert(db@.pins =~= pins_less(db@.pins, none));
        assert(texts(missing@) =~= missing_of(there, all.take(0)));
        assert(texts(keys@) =~= keys_of(removed_of(there, all.take(0))));
        crate::db::sum_is_not_negative(db);
    }
    while i < hashes.len()
        invariant
            i <= hashes@.len(),
            all == texts(hashes@),
            there == old(db)@.objects.dom(),
            deleted <= i,
            db.wf(),
            db.total_bytes >= 0,
            old(db).counted() ==> db.counted(),
            sum_sizes(old(db).objects.rows@) <= i64::MAX,
            sum_sizes(db.objects.rows@) >= 0,
            db@.objects == objects_less(old(db)@.objects, all.take(i as int).to_set()),
            db@.pins == pins_less(old(db)@.pins, all.take(i as int).to_set()),
            deleted == removed_of(there, all.take(i as int)).len(),
            bytes_freed == sum_sizes(old(db).objects.rows@) - sum_sizes(db.objects.rows@),
            texts(missing@) == missing_of(there, all.take(i as int)),
            texts(keys@) == keys_of(removed_of(there, all.take(i as int))),
        decreases hashes@.len() - i,
    {
        let ghost done = all.take(i as int);
        let ghost next = all.take(i as int + 1);
        let ghost was_missing = missing@;
        let ghost had_keys = keys@;
        let ghost h = all[i as int];
        proof {
            assert(next.drop_last() =~= done);
            assert(next.last() == h);
            assert(next =~= done.push(h));
            assert(next.to_set() =~= done.to_set().insert(h)) by {
                assert forall|x: Seq<char>| #[trigger]
                    next.contains(x) <==> done.contains(x) || x == h by {
                    if done.contains(x) {
                        let k = choose|k: int| 0 <= k < done.len() && done[k] == x;
                        assert(next[k] == x);
                    }
                    if x == h {
                        assert(next[done.len() as int] == x);
                    }
                }
            }
            assert(db@.objects.dom().contains(h) <==> there.contains(h) && !done.contains(h));
        }
        let hash = hashes[i].as_str();
        if object_exists(db, hash) {
            let freed = delete_object(db, hash);
            proof {
                crate::db::sum_is_not_negative(db);
            }
            deleted += 1;
            bytes_freed += freed;
            keys.push(key_for(hash));
            proof {
                assert(removed_of(there, next) == removed_of(there, done).push(h));
                assert(texts(keys@) =~= texts(had_keys).push(blob_key(h)));
                assert(keys_of(removed_of(there, next)) =~= keys_of(removed_of(there, done)).push(
                    blob_key(h),
                ));
            }
        } else {
            missing.push(hashes[i].clone());
            assert(texts(missing@) =~= texts(was_missing).push(h));
        }
        proof {
            assert(db@.objects =~= objects_less(old(db)@.objects, next.to_set()));
            assert(db@.pins =~= pins_less(old(db)@.pins, next.to_set()));
        }
        i += 1;
    }
    assert(all.take(i as int) =~= all);
    (deleted, bytes_freed, missing, keys)
}

/// The basenames of what a prune removes.
pub open spec fn pruned_basenames(list: Seq<(Seq<char>, Seq<char>, i64)>) -> Seq<Seq<char>> {
    list.map_values(|p: (Seq<char>, Seq<char>, i64)| p.0 + "-"@ + p.1)
}

/// The blob keys of what a prune removes.
pub open spec fn pruned_keys(list: Seq<(Seq<char>, Seq<char>, i64)>) -> Seq<Seq<char>> {
    list.map_values(|p: (Seq<char>, Seq<char>, i64)| blob_key(p.0))
}

/// What a prune of `before` removed, or would remove, and what tells of it.
pub open spec fn prune_done(
    before: Db,
    after: Db,
    cutoff: i64,
    dry_run: bool,
    now: i64,
    names: Seq<Seq<char>>,
    bytes: i64,
    keys: Seq<Seq<char>>,
) -> bool {
    &&& cutoff <= now - PRUNE_MIN_AGE
    &&& exists|list: Seq<(Seq<char>, Seq<char>, i64)>| #[trigger]
        before@.prune_list(cutoff, now, list) && {
            &&& names == pruned_basenames(list)
            &&& bytes == pruned_bytes(list)
            &&& keys == if dry_run {
                Seq::empty()
            } else {
                pruned_keys(list)
            }
            &&& dry_run ==> after == before
            &&& !dry_run ==> after@.objects == objects_less(before@.objects, pruned_hashes(list))
                && after@.pins == pins_less(before@.pins, pruned_hashes(list)) && !cyclic(
                before@,
                list.map_values(|p: (Seq<char>, Seq<char>, i64)| p.0),
            )
        }
}

/// Why a prune removes nothing: its cutoff is too recent, or what it would
/// remove refers to itself in a circle.
pub open spec fn prune_refused(before: Db, cutoff: i64, dry_run: bool, now: i64, e: DbError) -> bool {
    match e {
        DbError::CutoffTooRecent => cutoff > now - PRUNE_MIN_AGE,
        DbError::ReferenceCycle => cutoff <= now - PRUNE_MIN_AGE && !dry_run && exists|
            list: Seq<(Seq<char>, Seq<char>, i64)>,
        | #[trigger]
            before@.prune_list(cutoff, now, list) && cyclic(
                before@,
                list.map_values(|p: (Seq<char>, Seq<char>, i64)| p.0),
            ),
        _ => false,
    }
}

/// Removes old closures, whatever the quota: returns the basenames of what
/// goes, the bytes that it takes, and the keys of the blobs that are to be
/// deleted now, which are none where it is only asked what would go.
pub fn prune_objects(db: &mut Db, before: i64, dry_run: bool, now: i64) -> (r: Result<
    (Vec<String>, i64, Vec<String>),
    DbError,
>)
    requires
        old(db).wf(),
        old(db).total_bytes >= 0,
        sum_sizes(old(db).objects.rows@) <= i64::MAX,
    ensures
        final(db).wf(),
        old(db).counted() ==> final(db).counted(),
        match r {
            Ok(out) => prune_done(
                *old(db),
                *final(db),
                before,
                dry_run,
                now,
                texts(out.0@),
                out.1,
                texts(out.2@),
            ),
            Err(e) => prune_refused(*old(db), before, dry_run, now, e) && *final(db) == *old(db),
        },
{
    let pruned = match prune(db, before, now, dry_run) {
        Ok(pruned) => pruned,
        Err(e) => {
            return Err(e);
        },
    };
    let ghost list = pruned_view(pruned@);
    let mut names: Vec<String> = Vec::new();
    let mut keys: Vec<String> = Vec::new();
    let mut bytes: i64 = 0;
    let mut i: usize = 0;
    assert(texts(names@) =~= pruned_basenames(list.take(0)));
    assert(texts(keys@) =~= pruned_keys(list.take(0)));
    assert(texts(keys@) =~= Seq::<Seq<char>>::empty());
    while i < pruned.len()
        invariant
            i <= pruned@.len(),
            list == pruned_view(pruned@),
            old(db).wf(),
            old(db)@.prune_list(before, now, list),
            sum_sizes(old(db).objects.rows@) <= i64::MAX,
            texts(names@) == pruned_basenames(list.take(i as int)),
            bytes == pruned_bytes(list.take(i as int)),
            texts(keys@) == if dry_run {
                Seq::empty()
            } else {
                pruned_keys(list.take(i as int))
            },
        decreases pruned@.len() - i,
    {
        let ghost had_names = names@;
        let ghost had_keys = keys@;
        let ghost done = list.take(i as int);
        let ghost next = list.take(i as int + 1);
        proof {
            assert(next.drop_last() =~= done);
            assert(next =~= done.push(list[i as int]));
            pruned_bytes_fit(old(db), before, now, list, i as int + 1);
        }
        let p = &pruned[i];
        names.push(p.0.clone().concat("-").concat(p.1.as_str()));
        bytes += p.2;
        proof {
            assert(texts(names@) =~= texts(had_names).push(p.0@ + "-"@ + p.1@));
            assert(pruned_basenames(next) =~= pruned_basenames(done).push(p.0@ + "-"@ + p.1@));
        }
        if !dry_run {
            keys.push(key_for(p.0.as_str()));
            proof {
                assert(texts(keys@) =~= texts(had_keys).push(blob_key(p.0@)));
                assert(pruned_keys(next) =~= pruned_keys(done).push(blob_key(p.0@)));
            }
        }
        i += 1;
    }
    assert(list.take(i as int) =~= list);
    Ok((names, bytes, keys))
}

/// The signatures of an object under `keys`.
pub open spec fn signatures_of(
    keys: Seq<SigningKeyFile>,
    object: ObjectView,
    store_dir: Seq<char>,
) -> Seq<Seq<char>> {
    Seq::new(
        keys.len(),
        |i: int| signature_text(keys[i]@, fingerprint_text(object, store_dir)),
    )
}

/// A row with the signatures under `keys`.
pub open spec fn signed_anew(row: RowView, keys: Seq<SigningKeyFile>, store_dir: Seq<char>) -> RowView {
    RowView {
        object: ObjectView { sigs: signatures_of(keys, row.object, store_dir), ..row.object },
        ..row
    }
}

/// Every object with the signatures under `keys`.
pub open spec fn all_signed_anew(
    objects: Map<Seq<char>, RowView>,
    keys: Seq<SigningKeyFile>,
    store_dir: Seq<char>,
) -> Map<Seq<char>, RowView> {
    objects.map_values(|row: RowView| signed_anew(row, keys, store_dir))
}

/// How many of the objects under `hashes` carry other signatures than those
/// under `keys`.
pub open spec fn count_outdated(
    objects: Map<Seq<char>, RowView>,
    hashes: Seq<Seq<char>>,
    keys: Seq<SigningKeyFile>,
    store_dir: Seq<char>,
) -> nat
    decreases hashes.len(),
{
    if hashes.len() == 0 {
        0
    } else {
        let h = hashes.last();
        count_outdated(objects, hashes.drop_last(), keys, store_dir) + if objects[h].object.sigs
            != signatures_of(keys, objects[h].object, store_dir) {
            1nat
        } else {
            0nat
        }
    }
}

/// `hashes` lists what is in the catalogue, each once, in order.
pub open spec fn lists_all(hashes: Seq<Seq<char>>, there: Set<Seq<char>>) -> bool {
    &&& hashes.no_duplicates()
    &&& hashes.to_set() == there
}

/// All of `before` is signed anew, and `n` of it changed.
pub open spec fn resign_done(
    before: Map<Seq<char>, RowView>,
    after: Map<Seq<char>, RowView>,
    keys: Seq<SigningKeyFile>,
    store_dir: Seq<char>,
    n: usize,
) -> bool {
    &&& after == all_signed_anew(before, keys, store_dir)
    &&& exists|hashes: Seq<Seq<char>>| #[trigger]
        lists_all(hashes, before.dom()) && n == count_outdated(before, hashes, keys, store_dir)
}

/// Signs every object with the current keys, so that after a key was added all
/// objects carry its signature too. Returns how many changed.
pub fn resign(db: &mut Db, store_dir: &str, keys: &Vec<SigningKeyFile>) -> (r: Result<
    usize,
    NoSigningKeys,
>)
    requires
        old(db).wf(),
    ensures
        final(db).wf(),
        final(db)@.pins == old(db)@.pins,
        final(db).total_bytes == old(db).total_bytes,
        old(db).counted() ==> final(db).counted(),
        r is Err <==> keys@.len() == 0 && old(db)@.objects.dom() != Set::<Seq<char>>::empty(),
        r is Err ==> final(db)@ == old(db)@,
        r matches Ok(n) ==> resign_done(old(db)@.objects, final(db)@.objects, keys@, store_dir@, n),
{
    let table = all_hashes(db);
    let hashes = table.rows;
    let ghost all = texts(hashes@);
    let ghost first = db@;
    proof {
        hashes_are_distinct(hashes@);
        assert(all.to_set() =~= first.objects.dom()) by {
            assert forall|h: Seq<char>| all.contains(h) <==> first.objects.dom().contains(h) by {
                if all.contains(h) {
                    let k = choose|k: int| 0 <= k < all.len() && all[k] == h;
                    crate::table::row_under_its_key(hashes@, k);
                }
                if first.objects.dom().contains(h) {
                    assert(table@.dom().contains(h));
                    let k = crate::table::key_index(hashes@, h);
                    crate::table::row_under_its_key(hashes@, k);
                    assert(all[k] == h);
                }
            }
        }
        assert(db@.objects =~= first.objects);
    }
    let mut resigned: usize = 0;
    let mut i: usize = 0;
    while i < hashes.len()
        invariant
            i <= hashes@.len(),
            all == texts(hashes@),
            all.no_duplicates(),
            all.to_set() == first.objects.dom(),
            first == old(db)@,
            db.wf(),
            resigned <= i,
            resigned == count_outdated(first.objects, all.take(i as int), keys@, store_dir@),
            db@.pins == old(db)@.pins,
            db.total_bytes == old(db).total_bytes,
            old(db).counted() ==> db.counted(),
            db@.objects.dom() == first.objects.dom(),
            i > 0 ==> keys@.len() > 0,
            forall|k: int|
                0 <= k < i ==> db@.objects[#[trigger] all[k]] == signed_anew(
                    first.objects[all[k]],
                    keys@,
                    store_dir@,
                ),
            forall|k: int|
                i <= k < all.len() ==> db@.objects[#[trigger] all[k]] == first.objects[all[k]],
        decreases hashes@.len() - i,
    {
        let ghost h = all[i as int];
        let hash = hashes[i].as_str();
        proof {
            assert(all.contains(h));
            assert(all.to_set().contains(h));
            assert(all.take(i as int + 1).drop_last() =~= all.take(i as int));
        }
        match get_object(db, hash) {
            None => {},
            Some(object) => match sign(&object, store_dir, keys) {
                Err(e) => {
                    assert(first.objects.dom().contains(h));
                    assert(i == 0);
                    assert(db@.objects =~= first.objects) by {
                        assert forall|x: Seq<char>| first.objects.dom().contains(x) implies
                            db@.objects[x] == first.objects[x] by {
                            assert(all.to_set().contains(x));
                            let k = choose|k: int| 0 <= k < all.len() && all[k] == x;
                            assert(db@.objects[all[k]] == first.objects[all[k]]);
                        }
                    }
                    return Err(e);
                },
                Ok(sigs) => {
                    proof {
                        assert(object@ == first.objects[h].object);
                        assert(texts(sigs@) =~= signatures_of(
                            keys@,
                            first.objects[h].object,
                            store_dir@,
                        ));
                    }
                    if !same_texts(&sigs, &object.sigs) {
                        update_sigs(db, hash, &sigs);
                        resigned += 1;
                    } else {
                        assert(signed_anew(first.objects[h], keys@, store_dir@)
                            == first.objects[h]);
                    }
                    assert forall|k: int| i < k < all.len() implies db@.objects[#[trigger] all[k]]
                        == first.objects[all[k]] by {
                        assert(all[k] != h);
                    }
                    assert forall|k: int| 0 <= k < i implies db@.objects[#[trigger] all[k]]
                        == signed_anew(first.objects[all[k]], keys@, store_dir@) by {
                        assert(all[k] != h);
                    }
                    assert(db@.objects.dom() =~= first.objects.dom());
                },
            },
        }
        i += 1;
    }
    proof {
        assert(all.take(i as int) =~= all);
        assert(db@.objects =~= all_signed_anew(first.objects, keys@, store_dir@)) by {
            assert forall|x: Seq<char>| first.objects.dom().contains(x) implies db@.objects[x]
                == signed_anew(first.objects[x], keys@, store_dir@) by {
                assert(all.to_set().contains(x));
                let k = choose|k: int| 0 <= k < all.len() && all[k] == x;
                assert(db@.objects[all[k]] == signed_anew(first.objects[all[k]], keys@, store_dir@));
            }
        }
        assert(lists_all(all, first.objects.dom()));
        if keys@.len() == 0 {
            assert(all.len() == 0);
            assert(first.objects.dom() =~= Set::<Seq<char>>::empty());
        }
    }
    Ok(resigned)
}

proof fn hashes_are_distinct(hashes: Seq<String>)
    requires
        crate::table::keys_rise(hashes),
    ensures
        texts(hashes).no_duplicates(),
{
    let all = texts(hashes);
    assert forall|i: int, j: int| 0 <= i < all.len() && 0 <= j < all.len() && i != j implies all[i]
        != all[j] by {
        let (x, y) = if i < j { (i, j) } else { (j, i) };
        assert(crate::text::text_lt(hashes[x]@, hashes[y]@));
        crate::text::text_lt_irreflexive(hashes[x]@);
    }
}

/// Signing anew changes nothing the second time.
pub proof fn resigning_is_idempotent(
    objects: Map<Seq<char>, RowView>,
    keys: Seq<SigningKeyFile>,
    store_dir: Seq<char>,
)
    ensures
        all_signed_anew(all_signed_anew(objects, keys, store_dir), keys, store_dir)
            == all_signed_anew(objects, keys, store_dir),
{
    let once = all_signed_anew(objects, keys, store_dir);
    assert forall|h: Seq<char>| objects.dom().contains(h) implies signed_anew(
        once[h],
        keys,
        store_dir,
    ) == once[h] by {
        assert(fingerprint_text(once[h].object, store_dir) == fingerprint_text(
            objects[h].object,
            store_dir,
        ));
        assert(signatures_of(keys, once[h].object, store_dir) =~= signatures_of(
            keys,
            objects[h].object,
            store_dir,
        ));
    }
    assert(all_signed_anew(once, keys, store_dir) =~= once);
}

/// What a command comes to.
pub enum Plan {
    /// The reply.
    Reply(Response),
    /// The reply, once the blobs under these keys are deleted.
    AfterDeleting {
        /// The reply.
        response: Response,
        /// Keys of blobs.
        keys: Vec<String>,
    },
    /// A pass of the collection.
    Collect,
    /// A check.
    Check(FsckOptions),
    /// A copy of the catalogue, to this path.
    Copy(String),
}

/// The reply that tells of an error.
pub open spec fn tells(plan: Plan, text: Seq<char>) -> bool {
    plan matches Plan::Reply(Response::Error { message }) && message@ == text
}

/// What a command that only the catalogue is needed for comes to.
pub open spec fn carried_out(
    request: Request,
    before: Db,
    after: Db,
    quota: Option<u64>,
    in_flight: InFlight,
    keys: Seq<SigningKeyFile>,
    store_dir: Seq<char>,
    now: i64,
    plan: Plan,
) -> bool {
    match request {
        Request::Status => after == before && (plan matches Plan::Reply(
            Response::Status { objects, total_bytes, quota_bytes, uploads_in_flight },
        ) && objects == before.objects.rows@.len() && total_bytes == before.total_bytes
            && quota_bytes == quota && uploads_in_flight == count_uploads(in_flight.held.rows@)),
        Request::GcRun => after == before && match quota {
            Some(_) => plan is Collect,
            None => tells(plan, "no [gc] section is configured"@),
        },
        Request::Resign => after@.pins == before@.pins && after.total_bytes == before.total_bytes
            && if keys.len() == 0 && before@.objects.dom() != Set::<Seq<char>>::empty() {
            after@ == before@ && tells(plan, "no signing keys configured"@)
        } else {
            plan matches Plan::Reply(Response::Resign { resigned }) && resign_done(
                before@.objects,
                after@.objects,
                keys,
                store_dir,
                resigned,
            )
        },
        Request::Delete { hashes } => plan matches Plan::AfterDeleting { response, keys: blobs }
            && (response matches Response::Delete { deleted, bytes_freed, missing } && delete_done(
            before,
            after,
            texts(hashes@),
            deleted,
            bytes_freed,
            texts(missing@),
            texts(blobs@),
        )),
        Request::Pin { name, hash, expires_at } => after.objects == before.objects
            && after.total_bytes == before.total_bytes && if before@.objects.dom().contains(hash@) {
            &&& plan matches Plan::Reply(Response::Pin)
            &&& after@.pins == before@.pins.insert(
                name@,
                PinView { name: name@, store_path_hash: hash@, expires_at, created_at: now },
            )
        } else {
            after == before && tells(plan, (DbError::NotInCache { hash }).text())
        },
        Request::Unpin { name } => after.objects == before.objects && after.total_bytes
            == before.total_bytes && after@.pins == before@.pins.remove(name@) && (plan matches Plan::Reply(
            Response::Unpin { removed },
        ) && removed == before@.pins.dom().contains(name@)),
        Request::Fsck { repair, verify_sizes, quiesce } => after == before && if quiesce
            && !repair {
            tells(plan, "--quiesce requires --repair"@)
        } else if quota is None {
            tells(plan, "no [gc] section is configured"@)
        } else {
            plan matches Plan::Check(o) && o == (FsckOptions { repair, verify_sizes, quiesce })
        },
        Request::Prune { before: cutoff, dry_run } => match plan {
            Plan::AfterDeleting { response, keys: blobs } => response matches Response::Prune {
                pruned,
                bytes_freed,
            } && prune_done(
                before,
                after,
                cutoff,
                dry_run,
                now,
                texts(pruned@),
                bytes_freed,
                texts(blobs@),
            ),
            _ => after == before && exists|e: DbError| #[trigger]
                prune_refused(before, cutoff, dry_run, now, e) && tells(plan, e.text()),
        },
        Request::Backup { path } => after == before && (plan matches Plan::Copy(to) && to@ == path@),
    }
}

/// Carries out a command as far as the catalogue goes, and says what else it
/// needs. `quota` is that of the collection, where one is configured.
pub fn dispatch(
    request: Request,
    db: &mut Db,
    quota: Option<u64>,
    in_flight: &InFlight,
    keys: &Vec<SigningKeyFile>,
    store_dir: &str,
    now: i64,
) -> (r: Plan)
    requires
        old(db).wf(),
        old(db).total_bytes >= 0,
        sum_sizes(old(db).objects.rows@) <= i64::MAX,
        old(db).objects.rows@.len() <= i64::MAX,
    ensures
        final(db).wf(),
        old(db).counted() ==> final(db).counted(),
        carried_out(
            request,
            *old(db),
            *final(db),
            quota,
            *in_flight,
            keys@,
            store_dir@,
            now,
            r,
        ),
{
    match request {
        Request::Status => Plan::Reply(status(db, quota, in_flight)),
        Request::GcRun => if quota.is_some() {
            Plan::Collect
        } else {
            Plan::Reply(Response::Error { message: "no [gc] section is configured".to_owned() })
        },
        Request::Resign => match resign(db, store_dir, keys) {
            Ok(resigned) => Plan::Reply(Response::Resign { resigned }),
            Err(e) => Plan::Reply(Response::Error { message: e.message() }),
        },
        Request::Delete { hashes } => {
            let (deleted, bytes_freed, missing, keys) = delete(db, &hashes);
            Plan::AfterDeleting {
                response: Response::Delete { deleted, bytes_freed, missing },
                keys,
            }
        },
        Request::Pin { name, hash, expires_at } => {
            match pin(db, name.as_str(), hash.as_str(), expires_at, now) {
                Ok(_) => Plan::Reply(Response::Pin),
                Err(e) => Plan::Reply(Response::Error { message: e.message() }),
            }
        },
        Request::Unpin { name } => Plan::Reply(
            Response::Unpin { removed: unpin(db, name.as_str()) },
        ),
        Request::Fsck { repair, verify_sizes, quiesce } => if quiesce && !repair {
            Plan::Reply(Response::Error { message: "--quiesce requires --repair".to_owned() })
        } else if quota.is_some() {
            Plan::Check(FsckOptions { repair, verify_sizes, quiesce })
        } else {
            Plan::Reply(Response::Error { message: "no [gc] section is configured".to_owned() })
        },
        Request::Prune { before, dry_run } => match prune_objects(db, before, dry_run, now) {
            Ok((pruned, bytes_freed, keys)) => Plan::AfterDeleting {
                response: Response::Prune { pruned, bytes_freed },
                keys,
            },
            Err(e) => {
                assert(prune_refused(*old(db), before, dry_run, now, e));
                Plan::Reply(Response::Error { message: e.message() })
            },
        },
        Request::Backup { path } => Plan::Copy(path),
    }
}

/// The reply to a pass of the collection.
pub fn collected(pass: &PassResult) -> (r: Response)
    ensures
        r == (Response::Gc {
            evicted: pass.evicted,
            bytes_freed: pass.bytes_freed,
            candidates_exhausted: pass.candidates_exhausted,
        }),
{
    Response::Gc {
        evicted: pass.evicted,
        bytes_freed: pass.bytes_freed,
        candidates_exhausted: pass.candidates_exhausted,
    }
}

/// What became of the hashes of a deletion.
proof fn hashes_are_sorted_out(there: Set<Seq<char>>, hashes: Seq<Seq<char>>, h: Seq<char>)
    ensures
        removed_of(there, hashes).contains(h) <==> hashes.contains(h) && there.contains(h),
        removed_of(there, hashes).no_duplicates(),
        hashes.contains(h) && !there.contains(h) ==> missing_of(there, hashes).contains(h),
        missing_of(there, hashes).contains(h) ==> hashes.contains(h),
        hashes.no_duplicates() && there.contains(h) ==> !missing_of(there, hashes).contains(h),
        removed_of(there, hashes).len() + missing_of(there, hashes).len() == hashes.len(),
    decreases hashes.len(),
{
    if hashes.len() > 0 {
        let front = hashes.drop_last();
        let last = hashes.last();
        hashes_are_sorted_out(there, front, h);
        hashes_are_sorted_out(there, front, last);
        assert(front.push(last) =~= hashes);
        one_more(front, last, h);
        one_more(removed_of(there, front), last, h);
        one_more(missing_of(there, front), last, h);
        if hashes.no_duplicates() {
            assert(front.no_duplicates()) by {
                assert forall|i: int, j: int|
                    0 <= i < front.len() && 0 <= j < front.len() && i != j implies front[i]
                    != front[j] by {
                    assert(hashes[i] != hashes[j]);
                }
            }
            assert(!front.contains(last)) by {
                if front.contains(last) {
                    let i = front.index_of(last);
                    assert(hashes[i] != hashes[hashes.len() - 1]);
                }
            }
        }
    }
}

proof fn one_more(front: Seq<Seq<char>>, last: Seq<char>, h: Seq<char>)
    ensures
        front.push(last).contains(h) <==> front.contains(h) || h == last,
{
    let all = front.push(last);
    if front.contains(h) {
        let i = front.index_of(h);
        assert(all[i] == h);
    }
    assert(all[front.len() as int] == last);
    if all.contains(h) {
        let i = all.index_of(h);
        if i < front.len() {
            assert(front[i] == h);
        }
    }
}

/// A deletion takes the objects that it names and leaves all others as they are;
/// it counts each object once, deletes the blob of each, and tells which of the
/// hashes were not there.
pub proof fn deletions_tell_what_is_gone(
    before: Db,
    after: Db,
    hashes: Seq<Seq<char>>,
    deleted: usize,
    freed: i64,
    missing: Seq<Seq<char>>,
    keys: Seq<Seq<char>>,
    h: Seq<char>,
)
    requires
        delete_done(before, after, hashes, deleted, freed, missing, keys),
    ensures
        after@.objects.dom().contains(h) <==> before@.objects.dom().contains(h) && !hashes.contains(
            h,
        ),
        after@.objects.dom().contains(h) ==> after@.objects[h] == before@.objects[h],
        hashes.contains(h) && before@.objects.dom().contains(h) ==> keys.contains(
            "nar/"@ + h + ".nar.zst"@,
        ),
        forall|i: int|
            0 <= i < keys.len() ==> is_key_of_one(
                #[trigger] keys[i],
                hashes,
                before@.objects.dom(),
            ),
        deleted == keys.len(),
        deleted + missing.len() == hashes.len(),
        hashes.contains(h) && !before@.objects.dom().contains(h) ==> missing.contains(h),
        hashes.no_duplicates() && before@.objects.dom().contains(h) ==> !missing.contains(h),
{
    let there = before@.objects.dom();
    hashes_are_sorted_out(there, hashes, h);
    let removed = removed_of(there, hashes);
    if hashes.contains(h) {
        assert(hashes.to_set().contains(h));
    }
    if removed.contains(h) {
        let i = removed.index_of(h);
        assert(keys[i] == "nar/"@ + h + ".nar.zst"@);
    }
    assert forall|i: int| 0 <= i < keys.len() implies is_key_of_one(
        #[trigger] keys[i],
        hashes,
        there,
    ) by {
        assert(removed.contains(removed[i]));
        hashes_are_sorted_out(there, hashes, removed[i]);
        assert(hashes.contains(removed[i]));
        assert(keys[i] == "nar/"@ + removed[i] + ".nar.zst"@);
    }
}

/// `key` is that of the blob of one of `hashes` that is `there`.
pub open spec fn is_key_of_one(
    key: Seq<char>,
    hashes: Seq<Seq<char>>,
    there: Set<Seq<char>>,
) -> bool {
    exists|h: Seq<char>| #[trigger]
        hashes.contains(h) && there.contains(h) && key == "nar/"@ + h + ".nar.zst"@
}

/// After all objects were signed anew each carries one signature for each key, in
/// the order of the keys and over what it says of itself now; nothing else of it
/// has changed.
pub proof fn resigned_objects_carry_every_key(
    objects: Map<Seq<char>, RowView>,
    keys: Seq<SigningKeyFile>,
    store_dir: Seq<char>,
    h: Seq<char>,
)
    requires
        objects.dom().contains(h),
    ensures
        all_signed_anew(objects, keys, store_dir).dom() == objects.dom(),
        ({
            let row = all_signed_anew(objects, keys, store_dir)[h];
            &&& row.object.sigs.len() == keys.len()
            &&& forall|i: int|
                0 <= i < keys.len() ==> #[trigger] row.object.sigs[i] == keys[i].name@ + ":"@
                    + standard_base64(
                    ed25519_signature(
                        keys[i].seed@,
                        encode_utf8(fingerprint_text(row.object, store_dir)),
                    ),
                )
            &&& row == (RowView {
                object: ObjectView { sigs: row.object.sigs, ..objects[h].object },
                ..objects[h]
            })
        }),
{
    let new = all_signed_anew(objects, keys, store_dir);
    assert(new.dom() =~= objects.dom());
    assert(fingerprint_text(new[h].object, store_dir) == fingerprint_text(
        objects[h].object,
        store_dir,
    ));
}

/// The objects that signing anew counts are those that it changes.
pub proof fn changed_objects_are_counted(
    objects: Map<Seq<char>, RowView>,
    hashes: Seq<Seq<char>>,
    keys: Seq<SigningKeyFile>,
    store_dir: Seq<char>,
    h: Seq<char>,
)
    requires
        forall|i: int| 0 <= i < hashes.len() ==> objects.dom().contains(#[trigger] hashes[i]),
        objects.dom().contains(h),
    ensures
        count_outdated(objects, Seq::empty(), keys, store_dir) == 0,
        count_outdated(objects, hashes.push(h), keys, store_dir) == count_outdated(
            objects,
            hashes,
            keys,
            store_dir,
        ) + if all_signed_anew(objects, keys, store_dir)[h] != objects[h] {
            1int
        } else {
            0int
        },
{
    assert(hashes.push(h).drop_last() =~= hashes);
}

/// A prune that was carried out took objects and their pins and says which, with
/// one name and one blob to delete for each; one that was only asked for says the
/// same and takes nothing. Neither looks at what was pushed during the last day.
pub proof fn prunes_tell_what_is_gone(
    before: Db,
    after: Db,
    cutoff: i64,
    dry_run: bool,
    now: i64,
    names: Seq<Seq<char>>,
    bytes: i64,
    keys: Seq<Seq<char>>,
    h: Seq<char>,
)
    requires
        prune_done(before, after, cutoff, dry_run, now, names, bytes, keys),
        before@.objects.dom().contains(h),
    ensures
        now - cutoff >= 86400,
        dry_run ==> after == before && keys.len() == 0,
        !dry_run ==> keys.len() == names.len(),
        !dry_run && !after@.objects.dom().contains(h) ==> keys.contains(
            "nar/"@ + h + ".nar.zst"@,
        ) && names.contains(h + "-"@ + before@.objects[h].object.name)
            && before@.objects[h].pushed_at < cutoff,
        !dry_run && after@.objects.dom().contains(h) ==> after@.objects[h] == before@.objects[h],
{
    let list = choose|list: Seq<(Seq<char>, Seq<char>, i64)>| #[trigger]
        before@.prune_list(cutoff, now, list) && {
            &&& names == pruned_basenames(list)
            &&& bytes == pruned_bytes(list)
            &&& keys == if dry_run {
                Seq::empty()
            } else {
                pruned_keys(list)
            }
            &&& dry_run ==> after == before
            &&& !dry_run ==> after@.objects == objects_less(before@.objects, pruned_hashes(list))
                && after@.pins == pins_less(before@.pins, pruned_hashes(list)) && !cyclic(
                before@,
                list.map_values(|p: (Seq<char>, Seq<char>, i64)| p.0),
            )
        };
    if !dry_run && !after@.objects.dom().contains(h) {
        let i = choose|i: int| 0 <= i < list.len() && (#[trigger] list[i]).0 == h;
        prunes_take_only_what_nothing_needs(before@, cutoff, now, list, i);
        assert(keys[i] == "nar/"@ + h + ".nar.zst"@);
        assert(names[i] == h + "-"@ + before@.objects[h].object.name);
    }
}

/// A prune is refused for a cutoff of the last day and for a circle among what it
/// would remove, and for nothing else; asking what would go meets no circle.
pub proof fn prunes_are_refused_for_a_reason(
    before: Db,
    cutoff: i64,
    dry_run: bool,
    now: i64,
    e: DbError,
)
    requires
        prune_refused(before, cutoff, dry_run, now, e),
    ensures
        e is CutoffTooRecent || e is ReferenceCycle,
        e is CutoffTooRecent <==> now - cutoff < 86400,
        e is ReferenceCycle ==> !dry_run,
{
}

/// Signing anew says how many objects changed: none only where all were as they
/// are now.
pub proof fn resigning_tells_how_many_changed(
    before: Map<Seq<char>, RowView>,
    after: Map<Seq<char>, RowView>,
    keys: Seq<SigningKeyFile>,
    store_dir: Seq<char>,
    n: usize,
)
    requires
        resign_done(before, after, keys, store_dir, n),
    ensures
        after.dom() == before.dom(),
        n == 0 <==> after == before,
{
    let hashes = choose|hashes: Seq<Seq<char>>| #[trigger]
        lists_all(hashes, before.dom()) && n == count_outdated(before, hashes, keys, store_dir);
    assert(after.dom() =~= before.dom());
    assert forall|i: int| 0 <= i < hashes.len() implies before.dom().contains(
        #[trigger] hashes[i],
    ) by {
        assert(hashes.to_set().contains(hashes[i]));
    }
    none_is_outdated(before, hashes, keys, store_dir);
    if n == 0 {
        assert forall|h: Seq<char>| before.dom().contains(h) implies #[trigger] after[h] == before[h] by {
            assert(hashes.to_set().contains(h));
            let i = choose|i: int| 0 <= i < hashes.len() && hashes[i] == h;
            assert(before[hashes[i]].object.sigs == signatures_of(
                keys,
                before[hashes[i]].object,
                store_dir,
            ));
        }
        assert(after =~= before);
    }
    if after == before {
        assert forall|i: int| 0 <= i < hashes.len() implies before[#[trigger] hashes[i]].object.sigs
            == signatures_of(keys, before[hashes[i]].object, store_dir) by {
            assert(after[hashes[i]] == signed_anew(before[hashes[i]], keys, store_dir));
        }
    }
}

proof fn none_is_outdated(
    objects: Map<Seq<char>, RowView>,
    hashes: Seq<Seq<char>>,
    keys: Seq<SigningKeyFile>,
    store_dir: Seq<char>,
)
    ensures
        count_outdated(objects, hashes, keys, store_dir) == 0 <==> forall|i: int|
            0 <= i < hashes.len() ==> objects[#[trigger] hashes[i]].object.sigs == signatures_of(
                keys,
                objects[hashes[i]].object,
                store_dir,
            ),
    decreases hashes.len(),
{
    if hashes.len() > 0 {
        let front = hashes.drop_last();
        none_is_outdated(objects, front, keys, store_dir);
        if count_outdated(objects, hashes, keys, store_dir) == 0 {
            assert forall|i: int| 0 <= i < hashes.len() implies objects[#[trigger] hashes[i]].object.sigs
                == signatures_of(keys, objects[hashes[i]].object, store_dir) by {
                if i < front.len() {
                    assert(front[i] == hashes[i]);
                }
            }
        }
        if forall|i: int|
            0 <= i < hashes.len() ==> objects[#[trigger] hashes[i]].object.sigs == signatures_of(
                keys,
                objects[hashes[i]].object,
                store_dir,
            ) {
            assert(objects[hashes[hashes.len() - 1]].object.sigs == signatures_of(
                keys,
                objects[hashes[hashes.len() - 1]].object,
                store_dir,
            ));
            assert forall|i: int| 0 <= i < front.len() implies objects[#[trigger] front[i]].object.sigs
                == signatures_of(keys, objects[front[i]].object, store_dir) by {
                assert(hashes[i] == front[i]);
            }
        }
    }
}

/// A command changes what it is for and nothing else: asking changes nothing, pins
/// come and go without touching an object, and new signatures neither add nor
/// remove an object or a pin. Without a quota nothing is collected or checked.
pub proof fn commands_keep_to_their_business(
    request: Request,
    before: Db,
    after: Db,
    quota: Option<u64>,
    in_flight: InFlight,
    keys: Seq<SigningKeyFile>,
    store_dir: Seq<char>,
    now: i64,
    plan: Plan,
)
    requires
        carried_out(request, before, after, quota, in_flight, keys, store_dir, now, plan),
    ensures
        request is Status || request is GcRun || request is Fsck || request is Backup ==> after
            == before,
        request is Pin || request is Unpin ==> after.objects == before.objects && after.total_bytes
            == before.total_bytes,
        request is Resign ==> after@.pins == before@.pins && after@.objects.dom()
            == before@.objects.dom(),
        plan is Collect ==> request is GcRun && quota is Some,
        plan is Check ==> request is Fsck && quota is Some,
        plan is AfterDeleting ==> request is Delete || request is Prune,
        request is GcRun && quota is Some ==> plan is Collect,
        request matches Request::Pin { name, hash, expires_at } ==> {
            if before@.objects.dom().contains(hash@) {
                &&& after@.pins.dom().contains(name@)
                &&& after@.pins[name@].store_path_hash == hash@
                &&& after@.pins[name@].expires_at == expires_at
                &&& plan matches Plan::Reply(Response::Pin)
            } else {
                after == before
            }
        },
        request matches Request::Unpin { name } ==> !after@.pins.dom().contains(name@),
{
    if request is Resign {
        assert(after@.objects.dom() =~= before@.objects.dom());
    }
}

} // verus!
