//! Eviction: which objects may go, and in which order.

use vstd::prelude::*;

use crate::db::{bumped, reference_hash, target_of, Db, DbView, Row, RowView};
use crate::order::{before, sort_positions, Ordered};
use crate::table::{key_index, row_under_its_key, Keyed, Table};
use crate::text::{
    less, same, text_le, text_lt, text_lt_irreflexive, text_lt_total, text_lt_transitive,
};

verus! {

impl DbView {
    /// `h` may be evicted at `now`: no other object refers to it and no live
    /// pin protects it.
    pub open spec fn may_evict(self, h: Seq<char>, now: i64) -> bool {
        &&& self.objects.dom().contains(h)
        &&& !self.referenced(h)
        &&& !self.pinned(h, now)
    }

    /// `h` may be evicted at `now`, and was last pushed before `fresh`, where
    /// that is given.
    pub open spec fn candidate(self, h: Seq<char>, now: i64, fresh: Option<i64>) -> bool {
        self.may_evict(h, now) && (fresh matches Some(t) ==> self.objects[h].pushed_at < t)
    }

    /// `a` was read before `b`; at the same time, by hash.
    pub open spec fn colder(self, a: Seq<char>, b: Seq<char>) -> bool {
        let x = self.objects[a].last_accessed_at;
        let y = self.objects[b].last_accessed_at;
        x < y || (x == y && text_lt(a, b))
    }

    /// `out` lists the candidates, coldest first, `limit` at most.
    pub open spec fn eviction_list(
        self,
        limit: int,
        now: i64,
        fresh: Option<i64>,
        out: Seq<(Seq<char>, i64)>,
    ) -> bool {
        &&& out.len() <= limit
        &&& forall|i: int|
            0 <= i < out.len() ==> self.candidate((#[trigger] out[i]).0, now, fresh) && out[i].1
                == self.objects[out[i].0].object.file_size
        &&& forall|i: int, j: int|
            0 <= i < j < out.len() ==> self.colder((#[trigger] out[i]).0, (#[trigger] out[j]).0)
        &&& forall|h: Seq<char>| #[trigger]
            self.candidate(h, now, fresh) ==> {
                ||| exists|i: int| 0 <= i < out.len() && (#[trigger] out[i]).0 == h
                ||| out.len() == limit && forall|i: int|
                    0 <= i < out.len() ==> self.colder((#[trigger] out[i]).0, h)
            }
    }
}

/// Nothing but `h` itself refers to it, no pin that is still alive holds it,
/// and it was not pushed since `fresh`, where that is given.
pub open spec fn is_free(db: DbView, h: Seq<char>, now: i64, fresh: Option<i64>) -> bool {
    &&& db.objects.dom().contains(h)
    &&& forall|a: Seq<char>, k: int|
        #![trigger db.objects[a].object.references[k]]
        db.objects.dom().contains(a) && a != h && 0 <= k < db.objects[a].object.references.len()
            ==> !h.is_prefix_of(db.objects[a].object.references[k])
    &&& forall|n: Seq<char>| #[trigger]
        db.pins.dom().contains(n) && db.pins[n].store_path_hash == h
            ==> db.pins[n].expires_at is Some && db.pins[n].expires_at->0 <= now
    &&& fresh is Some ==> db.objects[h].pushed_at < fresh->0
}

/// What is free may be evicted.
proof fn free_is_candidate(db: DbView, h: Seq<char>, now: i64, fresh: Option<i64>)
    requires
        is_free(db, h, now, fresh),
    ensures
        db.candidate(h, now, fresh),
{
    if db.referenced(h) {
        let a = choose|a: Seq<char>| a != h && #[trigger] db.refers(a, h);
        let k = choose|k: int|
            0 <= k < db.objects[a].object.references.len() && reference_hash(
                #[trigger] db.objects[a].object.references[k],
            ) == h;
        let r = db.objects[a].object.references[k];
        if r.len() > 32 {
            assert(r.subrange(0, 32) =~= r.take(32));
        } else {
            assert(r.subrange(0, r.len() as int) =~= r);
        }
        assert(h.is_prefix_of(r));
    }
    if db.pinned(h, now) {
        let n = choose|n: Seq<char>| #[trigger]
            db.pins.dom().contains(n) && db.pins[n].store_path_hash == h && db.pins[n].live(now);
    }
}

/// The list goes by the last access alone, and the hash only where that is the
/// same: of two objects on it, the one that was read earlier stands first.
pub proof fn eviction_goes_by_last_access(
    db: DbView,
    limit: int,
    now: i64,
    fresh: Option<i64>,
    list: Seq<(Seq<char>, i64)>,
    i: int,
    j: int,
)
    requires
        db.eviction_list(limit, now, fresh, list),
        0 <= i < list.len(),
        0 <= j < list.len(),
    ensures
        db.objects[list[i].0].last_accessed_at < db.objects[list[j].0].last_accessed_at ==> i < j,
        i < j ==> db.objects[list[i].0].last_accessed_at <= db.objects[list[j].0].last_accessed_at,
        i < j && db.objects[list[i].0].last_accessed_at == db.objects[list[j].0].last_accessed_at
            ==> text_lt(list[i].0, list[j].0),
        i != j ==> list[i].0 != list[j].0,
{
    text_lt_irreflexive(list[i].0);
    text_lt_total(list[i].0, list[j].0);
    if i < j {
        assert(db.colder(list[i].0, list[j].0));
    } else if j < i {
        assert(db.colder(list[j].0, list[i].0));
    }
}

/// Everything that is free is on the list, unless the list is full of objects
/// that were not read later.
pub proof fn free_objects_are_listed(
    db: DbView,
    limit: int,
    now: i64,
    fresh: Option<i64>,
    list: Seq<(Seq<char>, i64)>,
    h: Seq<char>,
)
    requires
        db.eviction_list(limit, now, fresh, list),
        is_free(db, h, now, fresh),
    ensures
        list.contains((h, db.objects[h].object.file_size)) || (list.len() == limit && forall|i: int|
            0 <= i < list.len() ==> db.objects[(#[trigger] list[i]).0].last_accessed_at
                <= db.objects[h].last_accessed_at),
{
    free_is_candidate(db, h, now, fresh);
    if exists|i: int| 0 <= i < list.len() && (#[trigger] list[i]).0 == h {
        let i = choose|i: int| 0 <= i < list.len() && (#[trigger] list[i]).0 == h;
        assert(list[i] == (h, db.objects[h].object.file_size));
    } else {
        assert forall|i: int| 0 <= i < list.len() implies db.objects[(
        #[trigger] list[i]).0].last_accessed_at <= db.objects[h].last_accessed_at by {
            assert(db.colder(list[i].0, h));
        }
    }
}

/// Nothing is on the list that another object refers to, that a live pin holds
/// or that was pushed too lately, and each object stands there with the bytes
/// of its blob.
pub proof fn listed_objects_may_go(
    db: DbView,
    limit: int,
    now: i64,
    fresh: Option<i64>,
    list: Seq<(Seq<char>, i64)>,
    i: int,
)
    requires
        db.eviction_list(limit, now, fresh, list),
        0 <= i < list.len(),
    ensures
        list.len() <= limit,
        db.objects.dom().contains(list[i].0),
        list[i].1 == db.objects[list[i].0].object.file_size,
        fresh is Some ==> db.objects[list[i].0].pushed_at < fresh->0,
        list[i].0.len() == 32 ==> is_free(db, list[i].0, now, fresh),
        forall|n: Seq<char>| #[trigger]
            db.pins.dom().contains(n) && db.pins[n].store_path_hash == list[i].0
                ==> db.pins[n].expires_at is Some && db.pins[n].expires_at->0 <= now,
{
    let h = list[i].0;
    assert(db.candidate(h, now, fresh));
    assert forall|n: Seq<char>| #[trigger]
        db.pins.dom().contains(n) && db.pins[n].store_path_hash == h implies db.pins[n].expires_at
        is Some && db.pins[n].expires_at->0 <= now by {
        assert(!db.pins[n].live(now));
    }
    if h.len() == 32 {
        assert forall|a: Seq<char>, k: int|
            #![trigger db.objects[a].object.references[k]]
            db.objects.dom().contains(a) && a != h && 0 <= k
                < db.objects[a].object.references.len() implies !h.is_prefix_of(
            db.objects[a].object.references[k],
        ) by {
            let r = db.objects[a].object.references[k];
            if h.is_prefix_of(r) {
                assert(r.take(32) =~= h);
                if r.len() == 32 {
                    assert(r =~= h);
                }
                assert(reference_hash(r) == h);
                assert(db.refers(a, h));
            }
        }
    }
}

/// Reading a path moves it behind every candidate that was not read since.
pub proof fn reading_defers_eviction(
    objects: Map<Seq<char>, RowView>,
    read: Seq<Seq<char>>,
    then: i64,
    stale_after: i64,
    db: DbView,
    limit: int,
    now: i64,
    fresh: Option<i64>,
    list: Seq<(Seq<char>, i64)>,
    i: int,
    j: int,
)
    requires
        db.objects == bumped(objects, read, then, stale_after),
        db.eviction_list(limit, now, fresh, list),
        0 <= i < list.len(),
        0 <= j < list.len(),
        read.contains(list[i].0),
        stale_after >= 0,
        db.objects[list[j].0].last_accessed_at < then - stale_after,
    ensures
        j < i,
{
    eviction_goes_by_last_access(db, limit, now, fresh, list, j, i);
}

/// What a list of hashes with sizes holds.
pub open spec fn sized(v: Seq<(String, i64)>) -> Seq<(Seq<char>, i64)> {
    v.map_values(|p: (String, i64)| (p.0@, p.1))
}

/// The key by which candidates are ordered.
struct Access {
    time: i64,
    hash: String,
    size: i64,
}

impl Ordered for Access {
    closed spec fn le(self, other: Self) -> bool {
        self.time < other.time || (self.time == other.time && text_le(self.hash@, other.hash@))
    }

    proof fn le_total(a: Self, b: Self) {
        text_lt_total(a.hash@, b.hash@);
    }

    proof fn le_transitive(a: Self, b: Self, c: Self) {
        text_lt_total(a.hash@, b.hash@);
        text_lt_total(b.hash@, c.hash@);
        text_lt_irreflexive(a.hash@);
        if a.time == b.time && b.time == c.time && text_lt(c.hash@, a.hash@) && a.hash@ != b.hash@ {
            text_lt_transitive(c.hash@, a.hash@, b.hash@);
        }
    }

    fn not_after(&self, other: &Self) -> (r: bool) {
        self.time < other.time || (self.time == other.time && !less(
            other.hash.as_str(),
            self.hash.as_str(),
        ))
    }
}

/// Row `i` of `rows` refers to `h` with its reference `k`, and is not `h`.
spec fn edge(rows: Seq<Row>, i: int, k: int, h: Seq<char>) -> bool {
    &&& 0 <= i < rows.len()
    &&& 0 <= k < rows[i].object.references@.len()
    &&& reference_hash(rows[i].object.references@[k]@) == h
    &&& rows[i].object.store_path_hash@ != h
}

/// The hashes that some other object refers to.
fn referenced_hashes(objects: &Table<Row>) -> (r: Table<String>)
    requires
        objects.wf(),
    ensures
        r.wf(),
        forall|h: Seq<char>| #[trigger]
            r@.dom().contains(h) <==> exists|i: int, k: int| edge(objects.rows@, i, k, h),
{
    let mut out: Table<String> = Table::new();
    let mut i: usize = 0;
    while i < objects.rows.len()
        invariant
            out.wf(),
            i <= objects.rows@.len(),
            forall|h: Seq<char>| #[trigger]
                out@.dom().contains(h) <==> exists|x: int, y: int|
                    x < i && #[trigger] edge(objects.rows@, x, y, h),
        decreases objects.rows@.len() - i,
    {
        let row = &objects.rows[i];
        let mut k: usize = 0;
        while k < row.object.references.len()
            invariant
                out.wf(),
                i < objects.rows@.len(),
                row == objects.rows@[i as int],
                k <= row.object.references@.len(),
                forall|h: Seq<char>| #[trigger]
                    out@.dom().contains(h) <==> exists|x: int, y: int|
                        (x < i || (x == i && y < k)) && #[trigger] edge(objects.rows@, x, y, h),
            decreases row.object.references@.len() - k,
        {
            let target = target_of(row.object.references[k].as_str());
            let ghost t = target@;
            let ghost prior = out@;
            if !same(target.as_str(), row.object.store_path_hash.as_str()) {
                out.put(target);
                assert(edge(objects.rows@, i as int, k as int, t));
            }
            k += 1;
            proof {
                assert forall|h: Seq<char>| #[trigger] out@.dom().contains(h) <==> exists|
                    x: int,
                    y: int,
                |
                    (x < i || (x == i && y < k)) && #[trigger] edge(objects.rows@, x, y, h) by {
                    if prior.dom().contains(h) {
                        let (x, y) = choose|x: int, y: int|
                            (x < i || (x == i && y < k - 1)) && #[trigger] edge(
                                objects.rows@,
                                x,
                                y,
                                h,
                            );
                        assert(edge(objects.rows@, x, y, h));
                    }
                    if exists|x: int, y: int|
                        (x < i || (x == i && y < k)) && #[trigger] edge(objects.rows@, x, y, h) {
                        let (x, y) = choose|x: int, y: int|
                            (x < i || (x == i && y < k)) && #[trigger] edge(
                                objects.rows@,
                                x,
                                y,
                                h,
                            );
                        if x < i || y < k - 1 {
                            assert(prior.dom().contains(h));
                        }
                    }
                }
            }
        }
        i += 1;
        proof {
            assert forall|h: Seq<char>| #[trigger] out@.dom().contains(h) <==> exists|
                x: int,
                y: int,
            |
                x < i && #[trigger] edge(objects.rows@, x, y, h) by {
                if out@.dom().contains(h) {
                    let (x, y) = choose|x: int, y: int|
                        (x < i - 1 || (x == i - 1 && y < k)) && #[trigger] edge(
                            objects.rows@,
                            x,
                            y,
                            h,
                        );
                    assert(x < i && edge(objects.rows@, x, y, h));
                }
                if exists|x: int, y: int| x < i && #[trigger] edge(objects.rows@, x, y, h) {
                    let (x, y) = choose|x: int, y: int|
                        x < i && #[trigger] edge(objects.rows@, x, y, h);
                    assert((x < i - 1 || (x == i - 1 && y < k)) && edge(objects.rows@, x, y, h));
                }
            }
        }
    }
    proof {
        assert forall|h: Seq<char>| #[trigger] out@.dom().contains(h) <==> exists|x: int, y: int|
            edge(objects.rows@, x, y, h) by {
            if exists|x: int, y: int| edge(objects.rows@, x, y, h) {
                let (x, y) = choose|x: int, y: int| edge(objects.rows@, x, y, h);
                assert(x < i && edge(objects.rows@, x, y, h));
            }
        }
    }
    out
}

/// The edges of the rows are the references of the catalogue.
proof fn edges_are_references(db: &Db, h: Seq<char>)
    requires
        db.wf(),
    ensures
        db@.referenced(h) <==> exists|i: int, k: int| edge(db.objects.rows@, i, k, h),
{
    let rows = db.objects.rows@;
    if db@.referenced(h) {
        let a = choose|a: Seq<char>| a != h && #[trigger] db@.refers(a, h);
        let i = key_index(rows, a);
        row_under_its_key(rows, i);
        let k = choose|k: int|
            0 <= k < db@.objects[a].object.references.len() && reference_hash(
                #[trigger] db@.objects[a].object.references[k],
            ) == h;
        assert(edge(rows, i, k, h));
    }
    if exists|i: int, k: int| edge(rows, i, k, h) {
        let (i, k) = choose|i: int, k: int| edge(rows, i, k, h);
        row_under_its_key(rows, i);
        let a = rows[i].object.store_path_hash@;
        assert(reference_hash(db@.objects[a].object.references[k]) == h);
        assert(db@.refers(a, h));
    }
}

/// Whether a pin protects its object at `now`.
pub fn pin_live(expires_at: Option<i64>, now: i64) -> (r: bool)
    ensures
        r == match expires_at {
            None => true,
            Some(t) => t > now,
        },
{
    match expires_at {
        None => true,
        Some(t) => t > now,
    }
}

/// The hashes that a live pin protects at `now`.
pub fn pinned_hashes(db: &Db, now: i64) -> (r: Table<String>)
    requires
        db.wf(),
    ensures
        r.wf(),
        forall|h: Seq<char>| #[trigger] r@.dom().contains(h) <==> db@.pinned(h, now),
{
    let mut out: Table<String> = Table::new();
    let mut i: usize = 0;
    let ghost rows = db.pins.rows@;
    while i < db.pins.rows.len()
        invariant
            out.wf(),
            db.wf(),
            rows == db.pins.rows@,
            i <= rows.len(),
            forall|h: Seq<char>| #[trigger]
                out@.dom().contains(h) <==> exists|x: int|
                    0 <= x < i && (#[trigger] rows[x]).store_path_hash@ == h && rows[x]@.live(now),
        decreases rows.len() - i,
    {
        let ghost prior = out@;
        let ghost hi = rows[i as int].store_path_hash@;
        if pin_live(db.pins.rows[i].expires_at, now) {
            out.put(db.pins.rows[i].store_path_hash.clone());
        }
        i += 1;
        proof {
            assert forall|h: Seq<char>| #[trigger] out@.dom().contains(h) <==> exists|x: int|
                0 <= x < i && (#[trigger] rows[x]).store_path_hash@ == h && rows[x]@.live(now) by {
                if out@.dom().contains(h) {
                    if prior.dom().contains(h) {
                        let x = choose|x: int|
                            0 <= x < i - 1 && (#[trigger] rows[x]).store_path_hash@ == h
                                && rows[x]@.live(now);
                        assert(rows[x].store_path_hash@ == h);
                    } else {
                        assert(rows[i - 1].store_path_hash@ == h);
                    }
                }
                if exists|x: int|
                    0 <= x < i && (#[trigger] rows[x]).store_path_hash@ == h && rows[x]@.live(now) {
                    let x = choose|x: int|
                        0 <= x < i && (#[trigger] rows[x]).store_path_hash@ == h && rows[x]@.live(
                            now,
                        );
                    if x < i - 1 {
                        assert(prior.dom().contains(h));
                    }
                }
            }
        }
    }
    proof {
        assert forall|h: Seq<char>| #[trigger] out@.dom().contains(h) <==> db@.pinned(h, now) by {
            if out@.dom().contains(h) {
                let x = choose|x: int|
                    0 <= x < i && (#[trigger] rows[x]).store_path_hash@ == h && rows[x]@.live(now);
                row_under_its_key(rows, x);
                assert(db@.pins.dom().contains(rows[x].name@));
            }
            if db@.pinned(h, now) {
                let n = choose|n: Seq<char>| #[trigger]
                    db@.pins.dom().contains(n) && db@.pins[n].store_path_hash == h
                        && db@.pins[n].live(now);
                let x = key_index(rows, n);
                row_under_its_key(rows, x);
                assert(rows[x].store_path_hash@ == h);
            }
        }
    }
    out
}

/// Objects that no other object refers to and no live pin protects, the one
/// that has not been read for longest first, `limit` at most. All of them may
/// go together: removing one cannot make another referenced.
///
/// Only a pinned root is left out here: while its row stands, its references
/// keep every member of its closure referenced.
pub fn evictable(db: &Db, limit: usize, now: i64) -> (r: Vec<(String, i64)>)
    requires
        db.wf(),
    ensures
        db@.eviction_list(limit as int, now, None, sized(r@)),
{
    evictable_settled(db, limit, now, None)
}

fn pushed_before(pushed_at: i64, fresh: Option<i64>) -> (r: bool)
    ensures
        r == (fresh matches Some(t) ==> pushed_at < t),
{
    match fresh {
        None => true,
        Some(t) => pushed_at < t,
    }
}

/// As [`evictable`], of the objects that were last pushed before `fresh`, where that is
/// given.
pub fn evictable_settled(db: &Db, limit: usize, now: i64, fresh: Option<i64>) -> (r: Vec<
    (String, i64),
>)
    requires
        db.wf(),
    ensures
        db@.eviction_list(limit as int, now, fresh, sized(r@)),
{
    let taken = referenced_hashes(&db.objects);
    let held = pinned_hashes(db, now);
    let ghost rows = db.objects.rows@;
    let mut keys: Vec<Access> = Vec::new();
    let mut i: usize = 0;
    while i < db.objects.rows.len()
        invariant
            db.wf(),
            taken.wf(),
            held.wf(),
            rows == db.objects.rows@,
            i <= rows.len(),
            forall|h: Seq<char>| #[trigger]
                taken@.dom().contains(h) <==> exists|x: int, y: int| edge(rows, x, y, h),
            forall|h: Seq<char>| #[trigger] held@.dom().contains(h) <==> db@.pinned(h, now),
            forall|k: int|
                0 <= k < keys@.len() ==> db@.candidate((#[trigger] keys@[k]).hash@, now, fresh)
                    && keys@[k].time == db@.objects[keys@[k].hash@].last_accessed_at
                    && keys@[k].size == db@.objects[keys@[k].hash@].object.file_size,
            forall|x: int|
                0 <= x < i && db@.candidate(
                    (#[trigger] rows[x]).object.store_path_hash@,
                    now,
                    fresh,
                ) ==> exists|k: int|
                    0 <= k < keys@.len() && (#[trigger] keys@[k]).hash@
                        == rows[x].object.store_path_hash@,
            forall|a: int, b: int|
                0 <= a < b < keys@.len() ==> text_lt(
                    (#[trigger] keys@[a]).hash@,
                    (#[trigger] keys@[b]).hash@,
                ),
            forall|k: int, x: int|
                0 <= k < keys@.len() && i <= x < rows.len() ==> text_lt(
                    (#[trigger] keys@[k]).hash@,
                    (#[trigger] rows[x]).object.store_path_hash@,
                ),
        decreases rows.len() - i,
    {
        let row = &db.objects.rows[i];
        let hash = row.object.store_path_hash.as_str();
        let ghost prior = keys@;
        let free = !taken.has(hash) && !held.has(hash) && pushed_before(row.pushed_at, fresh);
        proof {
            row_under_its_key(rows, i as int);
            edges_are_references(db, hash@);
            assert forall|x: int| i < x < rows.len() implies text_lt(
                hash@,
                (#[trigger] rows[x]).object.store_path_hash@,
            ) by {
                assert(text_lt(Row::key_of(rows[i as int]@), Row::key_of(rows[x]@)));
            }
        }
        if free {
            keys.push(
                Access {
                    time: row.last_accessed_at,
                    hash: row.object.store_path_hash.clone(),
                    size: row.object.file_size,
                },
            );
        }
        i += 1;
        proof {
            assert forall|x: int|
                0 <= x < i && db@.candidate(
                    (#[trigger] rows[x]).object.store_path_hash@,
                    now,
                    fresh,
                ) implies exists|k: int|
                0 <= k < keys@.len() && (#[trigger] keys@[k]).hash@
                    == rows[x].object.store_path_hash@ by {
                if x < i - 1 {
                    let k = choose|k: int|
                        0 <= k < prior.len() && (#[trigger] prior[k]).hash@
                            == rows[x].object.store_path_hash@;
                    assert(keys@[k].hash@ == rows[x].object.store_path_hash@);
                } else {
                    assert(keys@[keys@.len() - 1].hash@ == rows[x].object.store_path_hash@);
                }
            }
        }
    }
    let order = sort_positions(&keys);
    let count: usize = if limit < order.len() {
        limit
    } else {
        order.len()
    };
    let mut out: Vec<(String, i64)> = Vec::new();
    let mut j: usize = 0;
    while j < count
        invariant
            j <= count <= order@.len(),
            order@.len() == keys@.len(),
            forall|x: int| 0 <= x < order@.len() ==> 0 <= #[trigger] order@[x] < keys@.len(),
            out@.len() == j,
            forall|x: int|
                0 <= x < j ==> (#[trigger] out@[x]).0@ == keys@[order@[x] as int].hash@ && out@[x].1
                    == keys@[order@[x] as int].size,
        decreases count - j,
    {
        let key = &keys[order[j]];
        out.push((key.hash.clone(), key.size));
        j += 1;
    }
    proof {
        let list = sized(out@);
        assert forall|x: int, y: int|
            0 <= x < order@.len() && 0 <= y < order@.len() && x < y implies db@.colder(
            keys@[(#[trigger] order@[x]) as int].hash@,
            keys@[(#[trigger] order@[y]) as int].hash@,
        ) by {
            let a = order@[x] as int;
            let b = order@[y] as int;
            assert(before(keys@, a, b));
            text_lt_total(keys@[a].hash@, keys@[b].hash@);
            text_lt_irreflexive(keys@[a].hash@);
            if a == b {
                assert(false);
            } else if a < b {
                assert(text_lt(keys@[a].hash@, keys@[b].hash@));
            } else {
                assert(text_lt(keys@[b].hash@, keys@[a].hash@));
            }
        }
        assert forall|x: int| 0 <= x < list.len() implies db@.candidate(
            (#[trigger] list[x]).0,
            now,
            fresh,
        ) && list[x].1 == db@.objects[list[x].0].object.file_size by {
            assert(out@[x].0@ == keys@[order@[x] as int].hash@);
        }
        assert forall|x: int, y: int| 0 <= x < y < list.len() implies db@.colder(
            (#[trigger] list[x]).0,
            (#[trigger] list[y]).0,
        ) by {
            assert(out@[x].0@ == keys@[order@[x] as int].hash@);
            assert(out@[y].0@ == keys@[order@[y] as int].hash@);
        }
        assert forall|h: Seq<char>| #[trigger] db@.candidate(h, now, fresh) implies ({
            ||| exists|x: int| 0 <= x < list.len() && (#[trigger] list[x]).0 == h
            ||| list.len() == limit && forall|x: int|
                0 <= x < list.len() ==> db@.colder((#[trigger] list[x]).0, h)
        }) by {
            let at = key_index(rows, h);
            row_under_its_key(rows, at);
            assert(rows[at].object.store_path_hash@ == h);
            let k = choose|k: int| 0 <= k < keys@.len() && (#[trigger] keys@[k]).hash@ == h;
            assert(order@.contains(k as usize));
            let p = choose|p: int| 0 <= p < order@.len() && order@[p] == k as usize;
            if p < count {
                assert(list[p].0 == h);
            } else {
                assert forall|x: int| 0 <= x < list.len() implies db@.colder(
                    (#[trigger] list[x]).0,
                    h,
                ) by {
                    assert(out@[x].0@ == keys@[order@[x] as int].hash@);
                    assert(order@[p] as int == k);
                }
            }
        }
    }
    out
}

} // verus!
