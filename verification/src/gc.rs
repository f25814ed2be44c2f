//! Collection by quota: the coldest unreferenced objects go first, and every
//! object that stays keeps a complete closure.

use vstd::prelude::*;

use crate::db::{
    delete_object, negotiated, objects_less, pins_less, reconcile_total_bytes, sum_sizes, Db,
    DbView, RowView, PUSHED_AT_DEBOUNCE,
};
use crate::eviction::{
    eviction_goes_by_last_access, evictable_settled, free_objects_are_listed, is_free, sized,
};
use crate::inflight::InFlight;
use crate::storage::{blob_key, hash_for, hash_in_key, key_for, Blob};
use crate::table::Table;
use crate::text::texts;

verus! {

/// How many candidates are looked up at once. Deleting a root frees what it
/// refers to, which the next lookup then finds.
pub const BATCH: usize = 500;

/// For how many seconds a push protects an object: a client that was told that
/// the cache has a path relies on it until its push is over.
pub const PUSH_GRACE: i64 = 86400;

/// From when on a push protects an object at `now`.
pub open spec fn fresh_from(now: i64) -> i64 {
    if now - PUSH_GRACE + 1 < i64::MIN {
        i64::MIN
    } else {
        (now - PUSH_GRACE + 1) as i64
    }
}

/// What a pass did.
#[derive(Debug, PartialEq, Eq)]
pub struct PassResult {
    /// Objects removed.
    pub evicted: usize,
    /// Bytes their blobs took.
    pub bytes_freed: i64,
    /// Usage is still above the low watermark but everything left is
    /// referenced, pinned or freshly pushed.
    pub candidates_exhausted: bool,
}

/// A pass in progress.
pub struct Pass {
    /// What it did so far.
    pub result: PassResult,
    /// Usage, as the pass counts it down.
    pub usage: i64,
    /// The usage at which it stops.
    pub low: i64,
}

/// The bytes that the entries of `list` take together.
pub open spec fn list_bytes(list: Seq<(Seq<char>, i64)>) -> int
    decreases list.len(),
{
    if list.len() == 0 {
        0
    } else {
        list_bytes(list.drop_last()) + list.last().1
    }
}

/// The hashes of the entries of `list`.
pub open spec fn list_hashes(list: Seq<(Seq<char>, i64)>) -> Set<Seq<char>> {
    Set::new(|h: Seq<char>| exists|i: int| 0 <= i < list.len() && (#[trigger] list[i]).0 == h)
}

/// Of `list` a pass at `usage` removes the first `n`: it goes on until usage
/// is down to `low`.
pub open spec fn stops_after(usage: int, low: int, list: Seq<(Seq<char>, i64)>, n: int) -> bool {
    &&& 0 < n <= list.len()
    &&& n == list.len() || usage - list_bytes(list.take(n)) <= low
    &&& forall|m: int| 0 < m < n ==> usage - list_bytes(#[trigger] list.take(m)) > low
}

/// What a step does that finds the candidates `list` and removes `n` of them.
pub open spec fn step_effect(
    before: DbView,
    after: DbView,
    from: Pass,
    to: Pass,
    list: Seq<(Seq<char>, i64)>,
    n: int,
    keys: Seq<Seq<char>>,
) -> bool {
    let gone = list.take(n);
    &&& stops_after(from.usage as int, from.low as int, list, n)
    &&& after.objects == objects_less(before.objects, list_hashes(gone))
    &&& after.pins == pins_less(before.pins, list_hashes(gone))
    &&& to.usage == from.usage - list_bytes(gone)
    &&& to.low == from.low
    &&& to.result.evicted == from.result.evicted + n
    &&& to.result.bytes_freed == from.result.bytes_freed + list_bytes(gone)
    &&& to.result.candidates_exhausted == from.result.candidates_exhausted
    &&& keys.len() == n
    &&& forall|i: int| 0 <= i < n ==> #[trigger] keys[i] == blob_key(list[i].0)
}

/// Whether usage calls for a pass.
pub fn pass_due(usage: i64, high: i64) -> (r: bool)
    ensures
        r == (usage >= high),
{
    usage >= high
}

impl Pass {
    /// What is freed and what is left fit the counters.
    pub open spec fn fits(self, db: Db) -> bool {
        &&& self.low >= 0
        &&& self.result.bytes_freed >= 0
        &&& self.result.bytes_freed + sum_sizes(db.objects.rows@) <= i64::MAX
        &&& self.result.evicted + db.objects.rows@.len() <= usize::MAX
    }

    /// Starts a pass that stops at `low`, from the usage that the rows show.
    pub fn begin(db: &mut Db, low: i64) -> (r: Self)
        requires
            old(db).wf(),
            low >= 0,
            sum_sizes(old(db).objects.rows@) <= i64::MAX,
        ensures
            final(db).wf(),
            final(db).counted(),
            final(db).objects == old(db).objects,
            final(db).pins == old(db).pins,
            r.fits(*final(db)),
            r.usage == sum_sizes(old(db).objects.rows@),
            r.low == low,
            r.result.evicted == 0,
            r.result.bytes_freed == 0,
            !r.result.candidates_exhausted,
    {
        let usage = reconcile_total_bytes(db);
        let _ = db.objects.rows.len();
        Pass {
            result: PassResult { evicted: 0, bytes_freed: 0, candidates_exhausted: false },
            usage,
            low,
        }
    }

    /// One batch: removes the rows and returns the keys of the blobs to
    /// delete. `None` ends the pass: usage is down, or nothing may go.
    pub fn step(&mut self, db: &mut Db, now: i64) -> (r: Option<Vec<String>>)
        requires
            old(db).wf(),
            old(db).total_bytes >= 0,
            old(self).fits(*old(db)),
        ensures
            final(db).wf(),
            final(db).total_bytes >= 0,
            final(self).fits(*final(db)),
            old(db).counted() ==> final(db).counted(),
            old(self).usage <= old(self).low ==> r is None && *final(self) == *old(self),
            old(self).usage > old(self).low ==> exists|list: Seq<(Seq<char>, i64)>|
                #![trigger old(db)@.eviction_list(BATCH as int, now, Some(fresh_from(now)), list)]
                {
                    &&& old(db)@.eviction_list(BATCH as int, now, Some(fresh_from(now)), list)
                    &&& list.len() == 0 ==> r is None && *final(self) == (Pass {
                        result: PassResult {
                            candidates_exhausted: true,
                            ..old(self).result
                        },
                        ..*old(self)
                    })
                    &&& list.len() > 0 ==> r is Some && step_effect(
                        old(db)@,
                        final(db)@,
                        *old(self),
                        *final(self),
                        list,
                        texts(r->0@).len() as int,
                        texts(r->0@),
                    )
                },
            r is None ==> *final(db) == *old(db),
            sum_sizes(final(db).objects.rows@) == sum_sizes(old(db).objects.rows@) - (
            final(self).result.bytes_freed - old(self).result.bytes_freed),
            final(db).objects.rows@.len() == old(db).objects.rows@.len() - (
            final(self).result.evicted - old(self).result.evicted),
    {
        if self.usage <= self.low {
            return None;
        }
        let fresh: i64 = if now < i64::MIN + PUSH_GRACE {
            i64::MIN
        } else {
            now - PUSH_GRACE + 1
        };
        let candidates = evictable_settled(db, BATCH, now, Some(fresh));
        let ghost list = sized(candidates@);
        assert(old(db)@.eviction_list(BATCH as int, now, Some(fresh_from(now)), list));
        if candidates.len() == 0 {
            self.result.candidates_exhausted = true;
            return None;
        }
        let mut keys: Vec<String> = Vec::new();
        let mut i: usize = 0;
        let ghost start = *self;
        let ghost first = db@;
        let ghost bytes = sum_sizes(db.objects.rows@);
        let ghost count = db.objects.rows@.len();
        proof {
            assert(list.take(0) =~= Seq::<(Seq<char>, i64)>::empty());
            assert(db@.objects =~= objects_less(first.objects, list_hashes(list.take(0))));
            assert(db@.pins =~= pins_less(first.pins, list_hashes(list.take(0))));
        }
        loop
            invariant_except_break
                db.wf(),
                db.total_bytes >= 0,
                list == sized(candidates@),
                first.eviction_list(BATCH as int, now, Some(fresh_from(now)), list),
                i < candidates@.len(),
                start.usage > start.low,
                start.low >= 0,
                start.result.bytes_freed >= 0,
                start.result.bytes_freed + bytes <= i64::MAX,
                start.result.evicted + count <= usize::MAX,
                old(db).counted() ==> db.counted(),
                first == old(db)@,
                start == *old(self),
                bytes == sum_sizes(old(db).objects.rows@),
                count == old(db).objects.rows@.len(),
                db@.objects == objects_less(first.objects, list_hashes(list.take(i as int))),
                db@.pins == pins_less(first.pins, list_hashes(list.take(i as int))),
                self.low == start.low,
                self.usage == start.usage - list_bytes(list.take(i as int)),
                self.usage > self.low,
                self.result.evicted == start.result.evicted + i,
                self.result.bytes_freed == start.result.bytes_freed + list_bytes(
                    list.take(i as int),
                ),
                self.result.candidates_exhausted == start.result.candidates_exhausted,
                list_bytes(list.take(i as int)) >= 0,
                forall|m: int|
                    0 < m <= i ==> start.usage - list_bytes(#[trigger] list.take(m)) > start.low,
                sum_sizes(db.objects.rows@) == bytes - list_bytes(list.take(i as int)),
                db.objects.rows@.len() == count - i,
                keys@.len() == i,
                forall|x: int| 0 <= x < i ==> (#[trigger] keys@[x])@ == blob_key(list[x].0),
            ensures
                db.wf(),
                db.total_bytes >= 0,
                0 < i <= candidates@.len(),
                old(db).counted() ==> db.counted(),
                self.low == start.low,
                db@.objects == objects_less(first.objects, list_hashes(list.take(i as int))),
                db@.pins == pins_less(first.pins, list_hashes(list.take(i as int))),
                self.usage == start.usage - list_bytes(list.take(i as int)),
                self.result.evicted == start.result.evicted + i,
                self.result.bytes_freed == start.result.bytes_freed + list_bytes(
                    list.take(i as int),
                ),
                self.result.candidates_exhausted == start.result.candidates_exhausted,
                self.result.bytes_freed >= 0,
                i == list.len() || self.usage <= self.low,
                forall|m: int|
                    0 < m < i ==> start.usage - list_bytes(#[trigger] list.take(m)) > start.low,
                sum_sizes(db.objects.rows@) == bytes - list_bytes(list.take(i as int)),
                db.objects.rows@.len() == count - i,
                keys@.len() == i,
                forall|x: int| 0 <= x < i ==> (#[trigger] keys@[x])@ == blob_key(list[x].0),
            decreases candidates@.len() - i,
        {
            let hash = candidates[i].0.as_str();
            let ghost h = list[i as int].0;
            let ghost here = db@;
            proof {
                // Not removed yet: the list holds each hash once.
                assert(first.candidate(h, now, Some(fresh_from(now))));
                if list_hashes(list.take(i as int)).contains(h) {
                    let x = choose|x: int|
                        0 <= x < list.take(i as int).len() && (#[trigger] list.take(i as int)[x]).0
                            == h;
                    assert(list[x].0 == h);
                    assert(first.colder(list[x].0, list[i as int].0));
                    crate::text::text_lt_irreflexive(h);
                }
                assert(db@.objects.dom().contains(h));
                assert(db@.objects[h] == first.objects[h]);
                assert(db@.objects[h].object.file_size >= 0);
                crate::db::sum_bounds_row(db, h);
                assert(list.take(i as int + 1).drop_last() =~= list.take(i as int));
                assert(list.take(i as int + 1).last() == list[i as int]);
            }
            let freed = delete_object(db, hash);
            self.usage = self.usage - freed;
            self.result.evicted = self.result.evicted + 1;
            self.result.bytes_freed = self.result.bytes_freed + freed;
            keys.push(key_for(hash));
            proof {
                let old_gone = list_hashes(list.take(i as int));
                let new_gone = list_hashes(list.take(i as int + 1));
                assert(new_gone =~= old_gone.insert(h)) by {
                    assert forall|x: Seq<char>| new_gone.contains(x) == old_gone.insert(h).contains(
                        x,
                    ) by {
                        if new_gone.contains(x) {
                            let w = choose|w: int|
                                0 <= w < list.take(i as int + 1).len() && (
                                #[trigger] list.take(i as int + 1)[w]).0 == x;
                            if w < i {
                                assert(list.take(i as int)[w].0 == x);
                            }
                        }
                        if old_gone.contains(x) {
                            let w = choose|w: int|
                                0 <= w < list.take(i as int).len() && (
                                #[trigger] list.take(i as int)[w]).0 == x;
                            assert(list.take(i as int + 1)[w].0 == x);
                        }
                        assert(list.take(i as int + 1)[i as int].0 == h);
                    }
                }
                assert(db@.objects =~= objects_less(first.objects, new_gone));
                assert(db@.pins =~= pins_less(first.pins, new_gone));
            }
            i += 1;
            if self.usage <= self.low || i == candidates.len() {
                break;
            }
        }
        proof {
            assert(texts(keys@).len() == i);
            assert(step_effect(first, db@, start, *self, list, i as int, texts(keys@)));
        }
        Some(keys)
    }
}

/// An object that an eviction leaves keeps everything it refers to: what is
/// removed from the front of the list of candidates, no survivor needs.
pub proof fn eviction_keeps_closures(
    db: DbView,
    limit: int,
    now: i64,
    fresh: Option<i64>,
    list: Seq<(Seq<char>, i64)>,
    n: int,
    a: Seq<char>,
    b: Seq<char>,
)
    requires
        db.eviction_list(limit, now, fresh, list),
        0 <= n <= list.len(),
        objects_less(db.objects, list_hashes(list.take(n))).dom().contains(a),
        db.refers(a, b),
        db.objects.dom().contains(b),
    ensures
        objects_less(db.objects, list_hashes(list.take(n))).dom().contains(b),
{
    let gone = list_hashes(list.take(n));
    if gone.contains(b) && a != b {
        let x = choose|x: int|
            0 <= x < list.take(n).len() && (#[trigger] list.take(n)[x]).0 == b;
        assert(db.candidate(list[x].0, now, fresh));
        assert(db.referenced(b));
    }
}

/// Each member of `path` refers to the next.
pub open spec fn reference_path(db: DbView, path: Seq<Seq<char>>) -> bool {
    &&& path.len() > 0
    &&& forall|i: int| 0 <= i < path.len() - 1 ==> db.refers(#[trigger] path[i], path[i + 1])
}

/// Whatever is reached by references from a pinned object stays.
pub proof fn eviction_spares_pinned_closures(
    db: DbView,
    limit: int,
    now: i64,
    fresh: Option<i64>,
    list: Seq<(Seq<char>, i64)>,
    n: int,
    path: Seq<Seq<char>>,
)
    requires
        db.eviction_list(limit, now, fresh, list),
        0 <= n <= list.len(),
        reference_path(db, path),
        db.pinned(path[0], now),
        forall|i: int| 0 <= i < path.len() ==> db.objects.dom().contains(#[trigger] path[i]),
    ensures
        forall|i: int|
            0 <= i < path.len() ==> objects_less(
                db.objects,
                list_hashes(list.take(n)),
            ).dom().contains(#[trigger] path[i]),
    decreases path.len(),
{
    let gone = list_hashes(list.take(n));
    if path.len() == 1 {
        if gone.contains(path[0]) {
            let x = choose|x: int|
                0 <= x < list.take(n).len() && (#[trigger] list.take(n)[x]).0 == path[0];
            assert(db.candidate(list[x].0, now, fresh));
        }
    } else {
        let front = path.drop_last();
        assert forall|i: int| 0 <= i < front.len() - 1 implies db.refers(
            #[trigger] front[i],
            front[i + 1],
        ) by {
            assert(db.refers(path[i], path[i + 1]));
        }
        assert(front[0] == path[0]);
        assert forall|i: int| 0 <= i < front.len() implies db.objects.dom().contains(
            #[trigger] front[i],
        ) by {
            assert(db.objects.dom().contains(path[i]));
        }
        eviction_spares_pinned_closures(db, limit, now, fresh, list, n, front);
        let k = path.len() - 2;
        assert(front[k] == path[k]);
        assert(db.refers(path[k], path[k + 1]));
        eviction_keeps_closures(db, limit, now, fresh, list, n, path[k], path[k + 1]);
        assert forall|i: int| 0 <= i < path.len() implies objects_less(
            db.objects,
            gone,
        ).dom().contains(#[trigger] path[i]) by {
            if i < front.len() {
                assert(front[i] == path[i]);
            }
        }
    }
}

/// What holds between a catalogue and what a pass leaves of it.
pub open spec fn evicted_from(before: DbView, after: DbView, now: i64) -> bool {
    // Rows only go; those that stay are as they were.
    &&& forall|h: Seq<char>| #[trigger]
        after.objects.dom().contains(h) ==> before.objects.dom().contains(h) && after.objects[h]
            == before.objects[h]
    &&& forall|n: Seq<char>| #[trigger]
        after.pins.dom().contains(n) <==> before.pins.dom().contains(n)
            && after.objects.dom().contains(before.pins[n].store_path_hash)
    &&& forall|n: Seq<char>| #[trigger]
        after.pins.dom().contains(n) ==> after.pins[n] == before.pins[n]
    // A survivor keeps what it refers to.
    &&& forall|a: Seq<char>, b: Seq<char>|
        after.objects.dom().contains(a) && #[trigger] before.refers(a, b)
            && before.objects.dom().contains(b) ==> after.objects.dom().contains(b)
    // A pinned object survives.
    &&& forall|h: Seq<char>| #[trigger]
        before.pinned(h, now) && before.objects.dom().contains(h) ==> after.objects.dom().contains(h)
    // So does one that was pushed lately.
    &&& forall|h: Seq<char>| #[trigger]
        before.objects.dom().contains(h) && before.objects[h].pushed_at >= fresh_from(now)
            ==> after.objects.dom().contains(h)
}

/// `key` is the blob key of an object that `before` holds and `after` does not.
pub open spec fn key_of_removed(before: DbView, after: DbView, key: Seq<char>) -> bool {
    exists|h: Seq<char>|
        before.objects.dom().contains(h) && !after.objects.dom().contains(h)
            && #[trigger] blob_key(h) == key
}

/// A step of a pass that began with `before` keeps what a pass promises.
proof fn step_extends(
    before: DbView,
    mid: DbView,
    after: DbView,
    from: Pass,
    to: Pass,
    now: i64,
    list: Seq<(Seq<char>, i64)>,
    n: int,
    keys: Seq<Seq<char>>,
)
    requires
        evicted_from(before, mid, now),
        mid.eviction_list(BATCH as int, now, Some(fresh_from(now)), list),
        step_effect(mid, after, from, to, list, n, keys),
        forall|x: Seq<char>| #[trigger]
            mid.pins.dom().contains(x) ==> mid.objects.dom().contains(mid.pins[x].store_path_hash),
    ensures
        evicted_from(before, after, now),
        forall|h: Seq<char>|
            mid.objects.dom().contains(h) && !after.objects.dom().contains(h)
                <==> exists|i: int| 0 <= i < n && (#[trigger] list[i]).0 == h,
{
    let gone = list_hashes(list.take(n));
    assert forall|a: Seq<char>, b: Seq<char>|
        after.objects.dom().contains(a) && #[trigger] before.refers(a, b)
            && before.objects.dom().contains(b) implies after.objects.dom().contains(b) by {
        assert(mid.objects.dom().contains(a));
        assert(mid.objects.dom().contains(b));
        let k = choose|k: int|
            0 <= k < before.objects[a].object.references.len() && crate::db::reference_hash(
                #[trigger] before.objects[a].object.references[k],
            ) == b;
        assert(crate::db::reference_hash(mid.objects[a].object.references[k]) == b);
        assert(mid.refers(a, b));
        eviction_keeps_closures(mid, BATCH as int, now, Some(fresh_from(now)), list, n, a, b);
    }
    assert forall|h: Seq<char>| #[trigger]
        before.pinned(h, now) && before.objects.dom().contains(
            h,
        ) implies after.objects.dom().contains(h) by {
        let p = choose|p: Seq<char>| #[trigger]
            before.pins.dom().contains(p) && before.pins[p].store_path_hash == h
                && before.pins[p].live(now);
        assert(mid.pins.dom().contains(p));
        assert(mid.pinned(h, now));
        if gone.contains(h) {
            let x = choose|x: int|
                0 <= x < list.take(n).len() && (#[trigger] list.take(n)[x]).0 == h;
            assert(mid.candidate(list[x].0, now, Some(fresh_from(now))));
        }
    }
    assert forall|h: Seq<char>|
        mid.objects.dom().contains(h) && !after.objects.dom().contains(h) <==> exists|i: int|
            0 <= i < n && (#[trigger] list[i]).0 == h by {
        if gone.contains(h) {
            let x = choose|x: int|
                0 <= x < list.take(n).len() && (#[trigger] list.take(n)[x]).0 == h;
            assert(list[x].0 == h);
            assert(mid.candidate(list[x].0, now, Some(fresh_from(now))));
        }
        if exists|i: int| 0 <= i < n && (#[trigger] list[i]).0 == h {
            let x = choose|x: int| 0 <= x < n && (#[trigger] list[x]).0 == h;
            assert(list.take(n)[x].0 == h);
            assert(mid.candidate(list[x].0, now, Some(fresh_from(now))));
        }
    }
}

/// A step of a pass takes `before`, at a usage, to `after`.
pub open spec fn step_leads(
    before: DbView,
    usage: int,
    after: DbView,
    left: int,
    low: int,
    now: i64,
) -> bool {
    exists|list: Seq<(Seq<char>, i64)>, n: int|
        #![trigger before.eviction_list(BATCH as int, now, Some(fresh_from(now)), list), list.take(n)]
        {
            &&& before.eviction_list(BATCH as int, now, Some(fresh_from(now)), list)
            &&& stops_after(usage, low, list, n)
            &&& after.objects == objects_less(before.objects, list_hashes(list.take(n)))
            &&& after.pins == pins_less(before.pins, list_hashes(list.take(n)))
            &&& left == usage - list_bytes(list.take(n))
        }
}

/// Step `i` of a pass takes one state to the next.
pub open spec fn nth_step(states: Seq<(DbView, int)>, i: int, low: int, now: i64) -> bool {
    &&& states[i].1 > low
    &&& step_leads(states[i].0, states[i].1, states[i + 1].0, states[i + 1].1, low, now)
}

/// The states that a pass goes through, each with the usage there.
pub open spec fn pass_trace(states: Seq<(DbView, int)>, low: int, now: i64) -> bool {
    &&& states.len() > 0
    &&& forall|i: int| 0 <= i < states.len() - 1 ==> #[trigger] nth_step(states, i, low, now)
}

/// A pass leads from the first state to the last, whatever usage was counted
/// before.
pub open spec fn pass_leads(
    before: DbView,
    usage: int,
    after: DbView,
    left: int,
    low: int,
    now: i64,
) -> bool {
    exists|states: Seq<(DbView, int)>|
        {
            &&& #[trigger] pass_trace(states, low, now)
            &&& states[0].0.objects == before.objects
            &&& states[0].0.pins == before.pins
            &&& states[0].1 == usage
            &&& states.last() == (after, left)
        }
}

/// One whole pass at the time `now`: removes rows until usage is down to `low`
/// or nothing may go, and returns what it did with the keys of the blobs that
/// are left to delete.
pub fn evict(db: &mut Db, low: i64, now: i64) -> (r: (PassResult, Vec<String>))
    requires
        old(db).wf(),
        low >= 0,
        sum_sizes(old(db).objects.rows@) <= i64::MAX,
    ensures
        final(db).wf(),
        final(db).counted(),
        evicted_from(old(db)@, final(db)@, now),
        pass_leads(
            old(db)@,
            sum_sizes(old(db).objects.rows@),
            final(db)@,
            sum_sizes(final(db).objects.rows@),
            low as int,
            now,
        ),
        r.0.bytes_freed == sum_sizes(old(db).objects.rows@) - sum_sizes(final(db).objects.rows@),
        r.0.evicted == old(db).objects.rows@.len() - final(db).objects.rows@.len(),
        r.0.candidates_exhausted <==> final(db).total_bytes > low,
        r.0.candidates_exhausted ==> forall|h: Seq<char>| !(#[trigger] final(db)@.candidate(h, now, Some(fresh_from(now)))),
        sum_sizes(old(db).objects.rows@) <= low ==> final(db)@.objects == old(db)@.objects,
        forall|h: Seq<char>|
            old(db)@.objects.dom().contains(h) && !final(db)@.objects.dom().contains(h)
                ==> #[trigger] texts(r.1@).contains(blob_key(h)),
        forall|i: int|
            0 <= i < r.1@.len() ==> key_of_removed(old(db)@, final(db)@, (#[trigger] r.1@[i])@),
{
    let mut pass = Pass::begin(db, low);
    let mut keys: Vec<String> = Vec::new();
    proof {
        assert(db@.objects == old(db)@.objects);
        assert(db@.pins == old(db)@.pins);
        crate::db::sum_is_not_negative(db);
    }
    let ghost mut states: Seq<(DbView, int)> = seq![(db@, pass.usage as int)];
    loop
        invariant_except_break
            db.wf(),
            db.counted(),
            db.total_bytes >= 0,
            low >= 0,
            pass_trace(states, low as int, now),
            states[0].0.objects == old(db)@.objects,
            states[0].0.pins == old(db)@.pins,
            states[0].1 == sum_sizes(old(db).objects.rows@),
            states.last() == (db@, pass.usage as int),
            pass.fits(*db),
            pass.low == low,
            pass.usage == sum_sizes(db.objects.rows@),
            !pass.result.candidates_exhausted,
            evicted_from(old(db)@, db@, now),
            pass.result.bytes_freed == sum_sizes(old(db).objects.rows@) - sum_sizes(
                db.objects.rows@,
            ),
            pass.result.evicted == old(db).objects.rows@.len() - db.objects.rows@.len(),
            sum_sizes(old(db).objects.rows@) <= low ==> db@.objects == old(db)@.objects,
            forall|h: Seq<char>|
                old(db)@.objects.dom().contains(h) && !db@.objects.dom().contains(h)
                    ==> #[trigger] texts(keys@).contains(blob_key(h)),
            forall|i: int|
                0 <= i < keys@.len() ==> key_of_removed(old(db)@, db@, (#[trigger] keys@[i])@),
        ensures
            db.wf(),
            db.counted(),
            pass_trace(states, low as int, now),
            states[0].0.objects == old(db)@.objects,
            states[0].0.pins == old(db)@.pins,
            states[0].1 == sum_sizes(old(db).objects.rows@),
            states.last() == (db@, sum_sizes(db.objects.rows@)),
            evicted_from(old(db)@, db@, now),
            pass.result.bytes_freed == sum_sizes(old(db).objects.rows@) - sum_sizes(
                db.objects.rows@,
            ),
            pass.result.evicted == old(db).objects.rows@.len() - db.objects.rows@.len(),
            pass.result.candidates_exhausted <==> db.total_bytes > low,
            pass.result.candidates_exhausted ==> forall|h: Seq<char>|
                !(#[trigger] db@.candidate(h, now, Some(fresh_from(now)))),
            sum_sizes(old(db).objects.rows@) <= low ==> db@.objects == old(db)@.objects,
            forall|h: Seq<char>|
                old(db)@.objects.dom().contains(h) && !db@.objects.dom().contains(h)
                    ==> #[trigger] texts(keys@).contains(blob_key(h)),
            forall|i: int|
                0 <= i < keys@.len() ==> key_of_removed(old(db)@, db@, (#[trigger] keys@[i])@),
        decreases db.objects.rows@.len(),
    {
        let ghost mid = db@;
        let ghost from = pass;
        let ghost kept = keys@;
        match pass.step(db, now) {
            None => {
                proof {
                    if from.usage > from.low {
                        let list = choose|list: Seq<(Seq<char>, i64)>|
                            #![trigger mid.eviction_list(BATCH as int, now, Some(fresh_from(now)), list)]
                            mid.eviction_list(BATCH as int, now, Some(fresh_from(now)), list) && list.len() == 0;
                        assert forall|h: Seq<char>| !(#[trigger] db@.candidate(h, now, Some(fresh_from(now)))) by {
                            assert(mid == db@);
                        }
                    }
                }
                break;
            },
            Some(mut more) => {
                let ghost new = more@;
                proof {
                    let list = choose|list: Seq<(Seq<char>, i64)>|
                        #![trigger mid.eviction_list(BATCH as int, now, Some(fresh_from(now)), list)]
                        mid.eviction_list(BATCH as int, now, Some(fresh_from(now)), list) && list.len() > 0 && step_effect(
                            mid,
                            db@,
                            from,
                            pass,
                            list,
                            texts(new).len() as int,
                            texts(new),
                        );
                    let n = new.len() as int;
                    step_extends(old(db)@, mid, db@, from, pass, now, list, n, texts(new));
                    let longer = states.push((db@, pass.usage as int));
                    assert forall|i: int| 0 <= i < longer.len() - 1 implies #[trigger] nth_step(
                        longer,
                        i,
                        low as int,
                        now,
                    ) by {
                        if i < states.len() - 1 {
                            assert(nth_step(states, i, low as int, now));
                        } else {
                            assert(stops_after(from.usage as int, low as int, list, n));
                        }
                    }
                    states = longer;
                    assert forall|h: Seq<char>|
                        old(db)@.objects.dom().contains(h) && !db@.objects.dom().contains(
                            h,
                        ) implies #[trigger] texts(kept + new).contains(blob_key(h)) by {
                        if mid.objects.dom().contains(h) {
                            let i = choose|i: int| 0 <= i < n && (#[trigger] list[i]).0 == h;
                            assert(texts(new)[i] == blob_key(h));
                            assert(texts(kept + new)[kept.len() + i] == blob_key(h));
                        } else {
                            assert(texts(kept).contains(blob_key(h)));
                            let i = texts(kept).index_of(blob_key(h));
                            assert(texts(kept + new)[i] == blob_key(h));
                        }
                    }
                    assert forall|i: int| 0 <= i < (kept + new).len() implies key_of_removed(
                        old(db)@,
                        db@,
                        (#[trigger] (kept + new)[i])@,
                    ) by {
                        if i < kept.len() {
                            assert(key_of_removed(old(db)@, mid, kept[i]@));
                            let h = choose|h: Seq<char>|
                                old(db)@.objects.dom().contains(h) && !mid.objects.dom().contains(h)
                                    && #[trigger] blob_key(h) == kept[i]@;
                            assert(blob_key(h) == (kept + new)[i]@);
                        } else {
                            let j = i - kept.len();
                            assert(texts(new)[j] == blob_key(list[j].0));
                            assert(mid.candidate(list[j].0, now, Some(fresh_from(now))));
                            assert(blob_key(list[j].0) == (kept + new)[i]@);
                        }
                    }
                    crate::db::sum_is_not_negative(db);
                }
                keys.append(&mut more);
            },
        }
    }
    (pass.result, keys)
}

/// What a negotiation found in the cache, a client relies on until its push is
/// over: for 23 hours no pass removes it.
pub proof fn negotiated_paths_outlive_passes(
    objects: Map<Seq<char>, RowView>,
    hashes: Seq<Seq<char>>,
    then: i64,
    before: DbView,
    after: DbView,
    now: i64,
    h: Seq<char>,
)
    requires
        before.objects == negotiated(objects, hashes, then),
        hashes.contains(h),
        objects.dom().contains(h),
        evicted_from(before, after, now),
        now < then + PUSH_GRACE - PUSHED_AT_DEBOUNCE,
    ensures
        after.objects.dom().contains(h),
{
    assert(before.objects.dom().contains(h));
}

/// Nobody pushed the object in the last day, nothing else refers to it and no
/// live pin holds it.
pub open spec fn may_go(db: DbView, h: Seq<char>, now: i64) -> bool {
    is_free(db, h, now, None) && db.objects[h].pushed_at + 86400 <= now
}

/// What may go is one of those that a step looks for.
proof fn what_may_go_is_free(db: DbView, h: Seq<char>, now: i64)
    requires
        may_go(db, h, now),
    ensures
        is_free(db, h, now, Some(fresh_from(now))),
{
}

/// A step that removes one object and leaves another that may go removes the
/// one that was read earlier, and what may go still may after it.
proof fn step_takes_the_coldest(
    before: DbView,
    usage: int,
    after: DbView,
    left: int,
    low: int,
    now: i64,
    x: Seq<char>,
    y: Seq<char>,
)
    requires
        step_leads(before, usage, after, left, low, now),
        may_go(before, y, now),
        after.objects.dom().contains(y),
    ensures
        may_go(after, y, now),
        before.objects.dom().contains(x) && !after.objects.dom().contains(x)
            ==> before.objects[x].last_accessed_at <= before.objects[y].last_accessed_at,
        forall|h: Seq<char>| #[trigger]
            after.objects.dom().contains(h) ==> before.objects.dom().contains(h)
                && after.objects[h] == before.objects[h],
{
    let fresh = Some(fresh_from(now));
    let (list, n) = choose|list: Seq<(Seq<char>, i64)>, n: int|
        #![trigger before.eviction_list(BATCH as int, now, fresh, list), list.take(n)]
        {
            &&& before.eviction_list(BATCH as int, now, fresh, list)
            &&& stops_after(usage, low, list, n)
            &&& after.objects == objects_less(before.objects, list_hashes(list.take(n)))
            &&& after.pins == pins_less(before.pins, list_hashes(list.take(n)))
            &&& left == usage - list_bytes(list.take(n))
        };
    let gone = list_hashes(list.take(n));
    what_may_go_is_free(before, y, now);
    if before.objects.dom().contains(x) && !after.objects.dom().contains(x) {
        let i = choose|i: int| 0 <= i < list.take(n).len() && (#[trigger] list.take(n)[i]).0 == x;
        assert(list[i].0 == x);
        free_objects_are_listed(before, BATCH as int, now, fresh, list, y);
        if list.contains((y, before.objects[y].object.file_size)) {
            let j = list.index_of((y, before.objects[y].object.file_size));
            if j < n {
                assert(list.take(n)[j].0 == y);
                assert(gone.contains(y));
            }
            eviction_goes_by_last_access(before, BATCH as int, now, fresh, list, i, j);
        }
    }
    assert forall|a: Seq<char>, k: int|
        #![trigger after.objects[a].object.references[k]]
        after.objects.dom().contains(a) && a != y && 0 <= k
            < after.objects[a].object.references.len() implies !y.is_prefix_of(
        after.objects[a].object.references[k],
    ) by {
        assert(before.objects[a].object.references[k] == after.objects[a].object.references[k]);
    }
    assert forall|p: Seq<char>| #[trigger]
        after.pins.dom().contains(p) && after.pins[p].store_path_hash == y implies (
    after.pins[p].expires_at is Some && after.pins[p].expires_at->0 <= now) by {
        assert(before.pins.dom().contains(p));
    }
}

/// A pass removes by last access: of what it removes and what it could have
/// removed but leaves, nothing that it removes was read later.
pub proof fn passes_take_the_coldest(
    before: DbView,
    usage: int,
    after: DbView,
    left: int,
    low: int,
    now: i64,
    x: Seq<char>,
    y: Seq<char>,
)
    requires
        pass_leads(before, usage, after, left, low, now),
        before.objects.dom().contains(x),
        !after.objects.dom().contains(x),
        may_go(before, y, now),
        after.objects.dom().contains(y),
    ensures
        before.objects[x].last_accessed_at <= before.objects[y].last_accessed_at,
{
    let states = choose|states: Seq<(DbView, int)>|
        {
            &&& #[trigger] pass_trace(states, low, now)
            &&& states[0].0.objects == before.objects
            &&& states[0].0.pins == before.pins
            &&& states[0].1 == usage
            &&& states.last() == (after, left)
        };
    trace_takes_the_coldest(states, states.len() - 1, low, now, x, y);
}

/// See [`passes_take_the_coldest`]; for the first `m` steps.
proof fn trace_takes_the_coldest(
    states: Seq<(DbView, int)>,
    m: int,
    low: int,
    now: i64,
    x: Seq<char>,
    y: Seq<char>,
)
    requires
        pass_trace(states, low, now),
        0 <= m < states.len(),
        states[0].0.objects.dom().contains(x),
        may_go(states[0].0, y, now),
        states[m].0.objects.dom().contains(y),
    ensures
        may_go(states[m].0, y, now),
        forall|h: Seq<char>| #[trigger]
            states[m].0.objects.dom().contains(h) ==> states[0].0.objects.dom().contains(h)
                && states[m].0.objects[h] == states[0].0.objects[h],
        !states[m].0.objects.dom().contains(x) ==> states[0].0.objects[x].last_accessed_at
            <= states[0].0.objects[y].last_accessed_at,
    decreases m,
{
    if m > 0 {
        let a = states[m - 1];
        let b = states[m];
        assert(nth_step(states, m - 1, low, now));
        step_keeps_rows(a.0, a.1, b.0, b.1, low, now);
        trace_takes_the_coldest(states, m - 1, low, now, x, y);
        step_takes_the_coldest(a.0, a.1, b.0, b.1, low, now, x, y);
    }
}

/// Rows only go; those that stay are as they were.
proof fn step_keeps_rows(
    before: DbView,
    usage: int,
    after: DbView,
    left: int,
    low: int,
    now: i64,
)
    requires
        step_leads(before, usage, after, left, low, now),
    ensures
        forall|h: Seq<char>| #[trigger]
            after.objects.dom().contains(h) ==> before.objects.dom().contains(h)
                && after.objects[h] == before.objects[h],
{
}

/// A pass stops where it has to: as long as usage is above the low watermark it
/// goes on, and without the last object that it removed usage would still be
/// above it.
pub proof fn passes_stop_at_the_watermark(
    before: DbView,
    usage: int,
    after: DbView,
    left: int,
    low: int,
    now: i64,
)
    requires
        pass_leads(before, usage, after, left, low, now),
    ensures
        usage <= low ==> after.objects == before.objects && left == usage,
        after.objects == before.objects || exists|x: Seq<char>|
            {
                &&& #[trigger] before.objects.dom().contains(x)
                &&& !after.objects.dom().contains(x)
                &&& left + before.objects[x].object.file_size > low
            },
{
    let states = choose|states: Seq<(DbView, int)>|
        {
            &&& #[trigger] pass_trace(states, low, now)
            &&& states[0].0.objects == before.objects
            &&& states[0].0.pins == before.pins
            &&& states[0].1 == usage
            &&& states.last() == (after, left)
        };
    let m = states.len() - 1;
    if m > 0 {
        assert(nth_step(states, 0, low, now));
        let (p, u) = states[m - 1];
        assert(nth_step(states, m - 1, low, now));
        let fresh = Some(fresh_from(now));
        let (list, n) = choose|list: Seq<(Seq<char>, i64)>, n: int|
            #![trigger p.eviction_list(BATCH as int, now, fresh, list), list.take(n)]
            {
                &&& p.eviction_list(BATCH as int, now, fresh, list)
                &&& stops_after(u, low, list, n)
                &&& after.objects == objects_less(p.objects, list_hashes(list.take(n)))
                &&& after.pins == pins_less(p.pins, list_hashes(list.take(n)))
                &&& left == u - list_bytes(list.take(n))
            };
        let x = list[n - 1].0;
        assert(p.candidate(list[n - 1].0, now, fresh));
        assert(list.take(n)[n - 1].0 == x);
        assert(list.take(n).drop_last() =~= list.take(n - 1));
        assert(list.take(n).last() == list[n - 1]);
        if n > 1 {
            assert(u - list_bytes(list.take(n - 1)) > low);
        } else {
            assert(list.take(0) =~= Seq::<(Seq<char>, i64)>::empty());
        }
        trace_keeps_rows(states, m - 1, low, now);
        assert(before.objects.dom().contains(x));
    }
}

/// Rows only go; those that stay are as they were.
proof fn trace_keeps_rows(states: Seq<(DbView, int)>, m: int, low: int, now: i64)
    requires
        pass_trace(states, low, now),
        0 <= m < states.len(),
    ensures
        forall|h: Seq<char>| #[trigger]
            states[m].0.objects.dom().contains(h) ==> states[0].0.objects.dom().contains(h)
                && states[m].0.objects[h] == states[0].0.objects[h],
    decreases m,
{
    if m > 0 {
        assert(nth_step(states, m - 1, low, now));
        trace_keeps_rows(states, m - 1, low, now);
        step_keeps_rows(states[m - 1].0, states[m - 1].1, states[m].0, states[m].1, low, now);
    }
}

/// What a pass leaves is what it found without the removed rows: a survivor has
/// everything that it refers to, a pinned object and one that was pushed in the
/// last day survive, and pins go with their objects only.
pub proof fn passes_keep_what_is_needed(before: DbView, after: DbView, now: i64, h: Seq<char>)
    requires
        evicted_from(before, after, now),
        before.objects.dom().contains(h),
    ensures
        before.objects[h].pushed_at + 86400 > now ==> after.objects.dom().contains(h),
        forall|n: Seq<char>|
            #![trigger before.pins[n]]
            before.pins.dom().contains(n) && before.pins[n].store_path_hash == h && (
            before.pins[n].expires_at is None || before.pins[n].expires_at->0 > now)
                ==> after.objects.dom().contains(h) && after.pins.dom().contains(n),
        forall|a: Seq<char>, k: int|
            #![trigger before.objects[a].object.references[k]]
            h.len() == 32 && after.objects.dom().contains(a) && 0 <= k
                < before.objects[a].object.references.len() && h.is_prefix_of(
                before.objects[a].object.references[k],
            ) ==> after.objects.dom().contains(h),
{
    assert forall|n: Seq<char>|
        #![trigger before.pins[n]]
        before.pins.dom().contains(n) && before.pins[n].store_path_hash == h && (
        before.pins[n].expires_at is None || before.pins[n].expires_at->0 > now) implies (
    after.objects.dom().contains(h) && after.pins.dom().contains(n)) by {
        assert(before.pinned(h, now));
    }
    assert forall|a: Seq<char>, k: int|
        #![trigger before.objects[a].object.references[k]]
        h.len() == 32 && after.objects.dom().contains(a) && 0 <= k
            < before.objects[a].object.references.len() && h.is_prefix_of(
            before.objects[a].object.references[k],
        ) implies after.objects.dom().contains(h) by {
        let r = before.objects[a].object.references[k];
        assert(r.take(32) =~= h);
        if r.len() == 32 {
            assert(r =~= h);
        }
        assert(crate::db::reference_hash(r) == h);
        assert(before.refers(a, h));
    }
}

/// The blob has no row in `known`, nobody is at work on it, and it is old.
pub open spec fn is_orphan(blob: Blob, known: Set<Seq<char>>, held: Set<Seq<char>>, grace_secs: u64) -> bool {
    match hash_in_key(blob.key@) {
        None => false,
        Some(hash) => !known.contains(hash) && !held.contains(hash) && blob.age_secs >= grace_secs,
    }
}

/// The keys of the orphans among `blobs`, in order.
pub open spec fn orphans_of(
    blobs: Seq<Blob>,
    known: Set<Seq<char>>,
    held: Set<Seq<char>>,
    grace_secs: u64,
) -> Seq<Seq<char>>
    decreases blobs.len(),
{
    if blobs.len() == 0 {
        Seq::empty()
    } else {
        let init = orphans_of(blobs.drop_last(), known, held, grace_secs);
        if is_orphan(blobs.last(), known, held, grace_secs) {
            init.push(blobs.last().key@)
        } else {
            init
        }
    }
}

/// The keys of the blobs without a row. One that is being uploaded or is young
/// is left out: a row is written only after its blob, so that a blob without
/// one may belong to an upload in progress.
pub fn orphan_keys(
    blobs: &Vec<Blob>,
    known: &Table<String>,
    in_flight: &InFlight,
    grace_secs: u64,
) -> (r: Vec<String>)
    requires
        known.wf(),
        in_flight.wf(),
    ensures
        texts(r@) == orphans_of(blobs@, known@.dom(), in_flight@.dom(), grace_secs),
{
    let mut out: Vec<String> = Vec::new();
    let mut i: usize = 0;
    assert(texts(out@) =~= orphans_of(
        blobs@.take(0),
        known@.dom(),
        in_flight@.dom(),
        grace_secs,
    ));
    while i < blobs.len()
        invariant
            i <= blobs@.len(),
            known.wf(),
            in_flight.wf(),
            texts(out@) == orphans_of(
                blobs@.take(i as int),
                known@.dom(),
                in_flight@.dom(),
                grace_secs,
            ),
        decreases blobs@.len() - i,
    {
        let ghost prior = out@;
        let blob = &blobs[i];
        let orphan = match hash_for(blob.key.as_str()) {
            None => false,
            Some(hash) => !known.has(hash) && !in_flight.contains(hash) && blob.age_secs
                >= grace_secs,
        };
        assert(blobs@.take(i as int + 1).drop_last() =~= blobs@.take(i as int));
        if orphan {
            out.push(blob.key.clone());
            assert(texts(out@) =~= texts(prior).push(blob.key@));
        }
        i += 1;
    }
    assert(blobs@.take(i as int) =~= blobs@);
    out
}

/// The sweep deletes exactly the blobs whose hash no row has and nobody is at
/// work on, once they are as old as the grace; what is no blob of the cache it
/// leaves alone.
pub proof fn sweep_takes_the_orphans(
    blobs: Seq<Blob>,
    known: Set<Seq<char>>,
    held: Set<Seq<char>>,
    grace_secs: u64,
    i: int,
    hash: Seq<char>,
)
    requires
        0 <= i < blobs.len(),
        blobs[i].key@ == "nar/"@ + hash + ".nar.zst"@,
        hash.len() > 0,
        !known.contains(hash),
        !held.contains(hash),
        blobs[i].age_secs >= grace_secs,
    ensures
        orphans_of(blobs, known, held, grace_secs).contains(blobs[i].key@),
    decreases blobs.len(),
{
    let front = blobs.drop_last();
    let init = orphans_of(front, known, held, grace_secs);
    let all = orphans_of(blobs, known, held, grace_secs);
    if i == blobs.len() - 1 {
        crate::storage::key_round_trip(hash);
        assert(all.last() == blobs[i].key@);
    } else {
        assert(front[i] == blobs[i]);
        sweep_takes_the_orphans(front, known, held, grace_secs, i, hash);
        let k = init.index_of(blobs[i].key@);
        assert(all[k] == blobs[i].key@);
    }
}

/// See [`sweep_takes_the_orphans`]: nothing else is deleted.
pub proof fn sweep_takes_only_orphans(
    blobs: Seq<Blob>,
    known: Set<Seq<char>>,
    held: Set<Seq<char>>,
    grace_secs: u64,
    key: Seq<char>,
)
    requires
        orphans_of(blobs, known, held, grace_secs).contains(key),
    ensures
        exists|i: int, hash: Seq<char>|
            #![trigger blobs[i], known.contains(hash)]
            0 <= i < blobs.len() && blobs[i].key@ == key && key == "nar/"@ + hash + ".nar.zst"@
                && hash.len() > 0 && !known.contains(hash) && !held.contains(hash)
                && blobs[i].age_secs >= grace_secs,
    decreases blobs.len(),
{
    let all = orphans_of(blobs, known, held, grace_secs);
    if blobs.len() > 0 {
        let front = blobs.drop_last();
        let init = orphans_of(front, known, held, grace_secs);
        let k = all.index_of(key);
        if k < init.len() {
            assert(init[k] == key);
            sweep_takes_only_orphans(front, known, held, grace_secs, key);
            let (i, hash) = choose|i: int, hash: Seq<char>|
                #![trigger front[i], known.contains(hash)]
                0 <= i < front.len() && front[i].key@ == key && key == "nar/"@ + hash + ".nar.zst"@
                    && hash.len() > 0 && !known.contains(hash) && !held.contains(hash)
                    && front[i].age_secs >= grace_secs;
            assert(blobs[i] == front[i]);
            assert(!known.contains(hash));
        } else {
            let last = blobs[blobs.len() - 1];
            assert(last == blobs.last());
            assert(last.key@ == key);
            let hash = hash_in_key(key)->0;
            crate::storage::key_is_the_only_one(key, hash);
            assert(!known.contains(hash));
        }
    }
}

/// Of a listing, the sweep deletes no blob that has a row and none that is
/// being uploaded.
pub proof fn sweep_spares_known_and_held(
    blobs: Seq<Blob>,
    known: Set<Seq<char>>,
    held: Set<Seq<char>>,
    grace_secs: u64,
    hash: Seq<char>,
)
    requires
        hash.len() > 0,
        known.contains(hash) || held.contains(hash),
    ensures
        !orphans_of(blobs, known, held, grace_secs).contains(blob_key(hash)),
    decreases blobs.len(),
{
    if blobs.len() > 0 {
        sweep_spares_known_and_held(blobs.drop_last(), known, held, grace_secs, hash);
        crate::storage::key_round_trip(hash);
        let init = orphans_of(blobs.drop_last(), known, held, grace_secs);
        let all = orphans_of(blobs, known, held, grace_secs);
        if all.contains(blob_key(hash)) {
            let k = choose|k: int| 0 <= k < all.len() && all[k] == blob_key(hash);
            if k < init.len() {
                assert(init[k] == blob_key(hash));
                assert(init.contains(blob_key(hash)));
            } else {
                assert(blobs.last().key@ == blob_key(hash));
            }
        }
    }
}

/// A step of a pass takes rows, pins and bytes together: each key is that of one
/// object that is gone, usage falls and what was freed grows by their sizes, and
/// nothing else changes.
pub proof fn steps_account_for_what_they_take(
    before: DbView,
    after: DbView,
    from: Pass,
    to: Pass,
    list: Seq<(Seq<char>, i64)>,
    n: int,
    keys: Seq<Seq<char>>,
    i: int,
    h: Seq<char>,
)
    requires
        step_effect(before, after, from, to, list, n, keys),
    ensures
        0 < n <= list.len(),
        keys.len() == n,
        0 <= i < n ==> keys[i] == "nar/"@ + list[i].0 + ".nar.zst"@,
        0 <= i < n ==> !after.objects.dom().contains(list[i].0),
        after.objects.dom().contains(h) <==> before.objects.dom().contains(h) && !(exists|k: int|
            0 <= k < n && (#[trigger] list[k]).0 == h),
        after.objects.dom().contains(h) ==> after.objects[h] == before.objects[h],
        to.low == from.low,
        to.result.evicted == from.result.evicted + n,
        from.usage - to.usage == to.result.bytes_freed - from.result.bytes_freed,
        n < list.len() ==> to.usage <= from.low,
{
    let gone = list.take(n);
    assert forall|k: int| 0 <= k < n implies list_hashes(gone).contains((#[trigger] list[k]).0) by {
        assert(gone[k].0 == list[k].0);
    }
    if list_hashes(gone).contains(h) {
        let k = choose|k: int| 0 <= k < gone.len() && (#[trigger] gone[k]).0 == h;
        assert(list[k].0 == h);
    }
}

/// The bytes of a list are those of its entries, and the keys that a pass hands
/// out are those of objects that it removed.
pub proof fn keys_are_those_of_removed_objects(
    list: Seq<(Seq<char>, i64)>,
    one: (Seq<char>, i64),
    before: DbView,
    after: DbView,
    key: Seq<char>,
    h: Seq<char>,
)
    ensures
        list_bytes(Seq::empty()) == 0,
        list_bytes(list.push(one)) == list_bytes(list) + one.1,
        before.objects.dom().contains(h) && !after.objects.dom().contains(h) ==> key_of_removed(
            before,
            after,
            "nar/"@ + h + ".nar.zst"@,
        ),
        key_of_removed(before, after, key) && key == "nar/"@ + h + ".nar.zst"@
            && before.objects.dom().contains(h) ==> !after.objects.dom().contains(h),
{
    assert(list.push(one).drop_last() =~= list);
    if before.objects.dom().contains(h) && !after.objects.dom().contains(h) {
        assert(blob_key(h) == "nar/"@ + h + ".nar.zst"@);
    }
    if key_of_removed(before, after, key) && key == "nar/"@ + h + ".nar.zst"@ {
        let g = choose|g: Seq<char>|
            before.objects.dom().contains(g) && !after.objects.dom().contains(g)
                && #[trigger] blob_key(g) == key;
        reveal_strlit("nar/");
        reveal_strlit(".nar.zst");
        let a = "nar/"@ + g + ".nar.zst"@;
        let b = "nar/"@ + h + ".nar.zst"@;
        assert(a == b);
        assert(g.len() == h.len());
        assert forall|k: int| 0 <= k < g.len() implies g[k] == h[k] by {
            assert(a[k + 4] == g[k] && b[k + 4] == h[k]);
        }
        assert(g =~= h);
    }
}

} // verus!
