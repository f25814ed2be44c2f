//! Pruning: removing what was last pushed before a cutoff and what no closure
//! that stays needs.

use vstd::prelude::*;

use crate::db::{
    delete_object, negotiated, objects_less, pins_less, reference_hash, sum_sizes, target_of, Db,
    DbError, DbView, Row, RowView, PRUNE_MIN_AGE, PUSHED_AT_DEBOUNCE,
};
use crate::eviction::pinned_hashes;
use crate::gc::reference_path;
use crate::graph::{count_down, has_edge, kahn, raise_counts};
use crate::order::{before, lists_range, sort_positions, Ordered};
use crate::table::{key_index, row_under_its_key, Keyed, Table};
use crate::text::{
    less, same, text_le, text_lt, text_lt_irreflexive, text_lt_total, text_lt_transitive,
};

verus! {

/// One object that a prune removes: hash, name, size of the blob.
pub type Pruned = (String, String, i64);

/// What a list of pruned objects holds.
pub open spec fn pruned_view(v: Seq<Pruned>) -> Seq<(Seq<char>, Seq<char>, i64)> {
    v.map_values(|p: Pruned| (p.0@, p.1@, p.2))
}

impl DbView {
    /// A prune starts from `h`: it was pushed at or after the cutoff, or a
    /// live pin stands on it.
    pub open spec fn prune_root(self, h: Seq<char>, cutoff: i64, now: i64) -> bool {
        ||| self.objects.dom().contains(h) && self.objects[h].pushed_at >= cutoff
        ||| self.pinned(h, now)
    }

    /// A closure that stays needs `h`.
    pub open spec fn prune_keeps(self, h: Seq<char>, cutoff: i64, now: i64) -> bool {
        exists|path: Seq<Seq<char>>| #[trigger]
            reference_path(self, path) && self.prune_root(path[0], cutoff, now) && path.last() == h
    }

    /// `out` lists what a prune removes, by name and then by hash.
    pub open spec fn prune_list(
        self,
        cutoff: i64,
        now: i64,
        out: Seq<(Seq<char>, Seq<char>, i64)>,
    ) -> bool {
        &&& forall|i: int|
            0 <= i < out.len() ==> {
                &&& self.objects.dom().contains((#[trigger] out[i]).0)
                &&& !self.prune_keeps(out[i].0, cutoff, now)
                &&& out[i].1 == self.objects[out[i].0].object.name
                &&& out[i].2 == self.objects[out[i].0].object.file_size
            }
        &&& forall|i: int, j: int|
            0 <= i < j < out.len() ==> by_name(#[trigger] out[i], #[trigger] out[j])
        &&& forall|h: Seq<char>| #[trigger]
            self.objects.dom().contains(h) && !self.prune_keeps(h, cutoff, now) ==> exists|i: int|
                0 <= i < out.len() && (#[trigger] out[i]).0 == h
    }
}

/// `a` comes before `b`: by name, under one name by hash.
pub open spec fn by_name(a: (Seq<char>, Seq<char>, i64), b: (Seq<char>, Seq<char>, i64)) -> bool {
    text_lt(a.1, b.1) || (a.1 == b.1 && text_lt(a.0, b.0))
}

/// The hashes of `out`.
pub open spec fn pruned_hashes(out: Seq<(Seq<char>, Seq<char>, i64)>) -> Set<Seq<char>> {
    Set::new(|h: Seq<char>| exists|i: int| 0 <= i < out.len() && (#[trigger] out[i]).0 == h)
}

/// The bytes of `out`.
pub open spec fn pruned_bytes(out: Seq<(Seq<char>, Seq<char>, i64)>) -> int
    decreases out.len(),
{
    if out.len() == 0 {
        0
    } else {
        pruned_bytes(out.drop_last()) + out.last().2
    }
}

/// Reference `k` of row `i` points to row `j`.
spec fn points(rows: Seq<Row>, i: int, k: int, j: int) -> bool {
    &&& 0 <= i < rows.len()
    &&& 0 <= j < rows.len()
    &&& 0 <= k < rows[i].object.references@.len()
    &&& reference_hash(rows[i].object.references@[k]@) == rows[j].object.store_path_hash@
}

/// Everything that row `i` points to is marked.
spec fn closed_at(rows: Seq<Row>, marked: Seq<bool>, i: int) -> bool {
    forall|k: int, j: int| #[trigger] points(rows, i, k, j) ==> marked[j]
}

/// What a kept object refers to is kept.
proof fn keeps_follows(db: DbView, a: Seq<char>, b: Seq<char>, cutoff: i64, now: i64)
    requires
        db.prune_keeps(a, cutoff, now),
        db.refers(a, b),
    ensures
        db.prune_keeps(b, cutoff, now),
{
    let path = choose|path: Seq<Seq<char>>| #[trigger]
        reference_path(db, path) && db.prune_root(path[0], cutoff, now) && path.last() == a;
    let longer = path.push(b);
    assert forall|i: int| 0 <= i < longer.len() - 1 implies db.refers(
        #[trigger] longer[i],
        longer[i + 1],
    ) by {
        if i < path.len() - 1 {
            assert(db.refers(path[i], path[i + 1]));
        }
    }
    assert(reference_path(db, longer));
    assert(longer[0] == path[0]);
    assert(longer.last() == b);
}

/// A root is kept.
proof fn keeps_root(db: DbView, h: Seq<char>, cutoff: i64, now: i64)
    requires
        db.prune_root(h, cutoff, now),
    ensures
        db.prune_keeps(h, cutoff, now),
{
    let path = seq![h];
    assert(reference_path(db, path));
    assert(path.last() == h);
}

proof fn points_refers(db: &Db, i: int, k: int, j: int)
    requires
        db.wf(),
        points(db.objects.rows@, i, k, j),
    ensures
        db@.refers(
            db.objects.rows@[i].object.store_path_hash@,
            db.objects.rows@[j].object.store_path_hash@,
        ),
{
    let rows = db.objects.rows@;
    row_under_its_key(rows, i);
    let a = rows[i].object.store_path_hash@;
    assert(db@.objects[a].object.references[k] == rows[i].object.references@[k]@);
}

/// Once the marks hold every root and are closed, everything kept is marked.
proof fn marks_complete(
    db: &Db,
    marked: Seq<bool>,
    path: Seq<Seq<char>>,
    cutoff: i64,
    now: i64,
    j: int,
)
    requires
        db.wf(),
        marked.len() == db.objects.rows@.len(),
        forall|i: int|
            0 <= i < marked.len() && db@.prune_root(
                (#[trigger] db.objects.rows@[i]).object.store_path_hash@,
                cutoff,
                now,
            ) ==> marked[i],
        forall|i: int|
            0 <= i < marked.len() && #[trigger] marked[i] ==> closed_at(
                db.objects.rows@,
                marked,
                i,
            ),
        reference_path(db@, path),
        db@.prune_root(path[0], cutoff, now),
        0 <= j < marked.len(),
        db.objects.rows@[j].object.store_path_hash@ == path.last(),
    ensures
        marked[j],
    decreases path.len(),
{
    let rows = db.objects.rows@;
    if path.len() > 1 {
        let front = path.drop_last();
        assert forall|i: int| 0 <= i < front.len() - 1 implies db@.refers(
            #[trigger] front[i],
            front[i + 1],
        ) by {
            assert(db@.refers(path[i], path[i + 1]));
        }
        let a = front.last();
        assert(db@.refers(path[path.len() - 2], path[path.len() - 2 + 1]));
        assert(front[0] == path[0]);
        let i = key_index(rows, a);
        row_under_its_key(rows, i);
        marks_complete(db, marked, front, cutoff, now, i);
        let k = choose|k: int|
            0 <= k < db@.objects[a].object.references.len() && reference_hash(
                #[trigger] db@.objects[a].object.references[k],
            ) == path.last();
        assert(points(rows, i, k, j));
    }
}

/// Which rows a closure that stays needs.
fn mark(db: &Db, cutoff: i64, now: i64) -> (r: Vec<bool>)
    requires
        db.wf(),
    ensures
        r@.len() == db.objects.rows@.len(),
        forall|i: int|
            0 <= i < r@.len() ==> (#[trigger] r@[i] <==> db@.prune_keeps(
                db.objects.rows@[i].object.store_path_hash@,
                cutoff,
                now,
            )),
{
    let ghost rows = db.objects.rows@;
    let n: usize = db.objects.rows.len();
    let held = pinned_hashes(db, now);
    let mut marked: Vec<bool> = Vec::new();
    let mut stack: Vec<usize> = Vec::new();
    let mut i: usize = 0;
    while i < n
        invariant
            db.wf(),
            rows == db.objects.rows@,
            i <= n == rows.len(),
            held.wf(),
            forall|h: Seq<char>| #[trigger] held@.dom().contains(h) <==> db@.pinned(h, now),
            marked@.len() == i,
            forall|x: int|
                0 <= x < i ==> (#[trigger] marked@[x] <==> db@.prune_root(
                    rows[x].object.store_path_hash@,
                    cutoff,
                    now,
                )),
            forall|x: int| 0 <= x < i && #[trigger] marked@[x] ==> stack@.contains(x as usize),
            forall|y: int|
                0 <= y < stack@.len() ==> (#[trigger] stack@[y]) < i && marked@[stack@[y] as int],
        decreases n - i,
    {
        let ghost prior = stack@;
        let row = &db.objects.rows[i];
        let root = row.pushed_at >= cutoff || held.has(row.object.store_path_hash.as_str());
        proof {
            row_under_its_key(rows, i as int);
        }
        marked.push(root);
        if root {
            stack.push(i);
        }
        i += 1;
        proof {
            assert forall|x: int| 0 <= x < i && #[trigger] marked@[x] implies stack@.contains(
                x as usize,
            ) by {
                if x < i - 1 {
                    assert(prior.contains(x as usize));
                    assert(stack@[prior.index_of(x as usize)] == x as usize);
                } else {
                    assert(stack@[stack@.len() - 1] == x as usize);
                }
            }
        }
    }
    proof {
        assert forall|x: int| 0 <= x < n && #[trigger] marked@[x] implies db@.prune_keeps(
            rows[x].object.store_path_hash@,
            cutoff,
            now,
        ) by {
            keeps_root(db@, rows[x].object.store_path_hash@, cutoff, now);
        }
    }
    while stack.len() > 0
        invariant
            db.wf(),
            rows == db.objects.rows@,
            n == rows.len() == marked@.len(),
            forall|x: int|
                0 <= x < n && #[trigger] marked@[x] ==> db@.prune_keeps(
                    rows[x].object.store_path_hash@,
                    cutoff,
                    now,
                ),
            forall|x: int|
                0 <= x < n && db@.prune_root(
                    (#[trigger] rows[x]).object.store_path_hash@,
                    cutoff,
                    now,
                ) ==> marked@[x],
            forall|x: int|
                0 <= x < n && #[trigger] marked@[x] ==> stack@.contains(x as usize) || closed_at(
                    rows,
                    marked@,
                    x,
                ),
            forall|y: int|
                0 <= y < stack@.len() ==> (#[trigger] stack@[y]) < n && marked@[stack@[y] as int],
        decreases count_down(marked@), stack@.len(),
    {
        let ghost waiting = stack@;
        let ghost start = marked@;
        let at: usize = stack.pop().unwrap();
        assert(waiting[waiting.len() - 1] == at);
        let row = &db.objects.rows[at];
        let mut k: usize = 0;
        proof {
            assert forall|x: int| 0 <= x < n && x != at && #[trigger] marked@[x] implies (
            stack@.contains(x as usize) || closed_at(rows, marked@, x)) by {
                if waiting.contains(x as usize) {
                    let w = waiting.index_of(x as usize);
                    assert(stack@[w] == x as usize);
                }
            }
        }
        while k < row.object.references.len()
            invariant
                db.wf(),
                rows == db.objects.rows@,
                n == rows.len() == marked@.len(),
                start.len() == n,
                at < n,
                *row == rows[at as int],
                start[at as int],
                k <= row.object.references@.len(),
                forall|x: int| 0 <= x < n && #[trigger] start[x] ==> marked@[x],
                count_down(marked@) <= count_down(start),
                count_down(marked@) == count_down(start) ==> stack@ == waiting.drop_last(),
                waiting.len() > 0,
                forall|x: int|
                    0 <= x < n && #[trigger] marked@[x] ==> db@.prune_keeps(
                        rows[x].object.store_path_hash@,
                        cutoff,
                        now,
                    ),
                forall|x: int|
                    0 <= x < n && x != at && #[trigger] marked@[x] ==> stack@.contains(x as usize)
                        || closed_at(rows, marked@, x),
                forall|x: int, j: int| 0 <= x < k && #[trigger] points(rows, at as int, x, j)
                    ==> marked@[j],
                forall|y: int|
                    0 <= y < stack@.len() ==> (#[trigger] stack@[y]) < n
                        && marked@[stack@[y] as int],
            decreases row.object.references@.len() - k,
        {
            let target = target_of(row.object.references[k].as_str());
            let ghost before_marks = marked@;
            let ghost before_stack = stack@;
            match db.objects.find(target.as_str()) {
                Some(j) => {
                    assert(points(rows, at as int, k as int, j as int));
                    if !marked[j] {
                        proof {
                            points_refers(db, at as int, k as int, j as int);
                            keeps_follows(
                                db@,
                                rows[at as int].object.store_path_hash@,
                                rows[j as int].object.store_path_hash@,
                                cutoff,
                                now,
                            );
                            raise_counts(marked@, j as int);
                        }
                        marked[j] = true;
                        stack.push(j);
                        proof {
                            assert(marked@ =~= before_marks.update(j as int, true));
                            assert(stack@[stack@.len() - 1] == j);
                            assert forall|x: int|
                                0 <= x < n && x != at && #[trigger] marked@[x] implies (
                            stack@.contains(x as usize) || closed_at(rows, marked@, x)) by {
                                if x != j {
                                    assert(before_marks[x]);
                                    if before_stack.contains(x as usize) {
                                        let w = before_stack.index_of(x as usize);
                                        assert(stack@[w] == x as usize);
                                    } else {
                                        assert(closed_at(rows, before_marks, x));
                                    }
                                }
                            }
                        }
                    }
                    proof {
                        assert forall|x: int, y: int|
                            0 <= x < k + 1 && #[trigger] points(rows, at as int, x, y) implies marked@[y] by {
                            if x == k {
                                row_under_its_key(rows, y);
                                row_under_its_key(rows, j as int);
                            }
                        }
                    }
                },
                None => {
                    proof {
                        assert forall|x: int, y: int|
                            0 <= x < k + 1 && #[trigger] points(rows, at as int, x, y) implies marked@[y] by {
                            if x == k {
                                row_under_its_key(rows, y);
                            }
                        }
                    }
                },
            }
            k += 1;
        }
        assert(closed_at(rows, marked@, at as int));
    }
    proof {
        assert forall|x: int| 0 <= x < marked@.len() implies (#[trigger] marked@[x]
            <==> db@.prune_keeps(rows[x].object.store_path_hash@, cutoff, now)) by {
            let h = rows[x].object.store_path_hash@;
            if db@.prune_keeps(h, cutoff, now) {
                let path = choose|path: Seq<Seq<char>>| #[trigger]
                    reference_path(db@, path) && db@.prune_root(path[0], cutoff, now)
                        && path.last() == h;
                assert forall|i: int| 0 <= i < marked@.len() && #[trigger] marked@[i] implies closed_at(
                    rows,
                    marked@,
                    i,
                ) by {
                    assert(!stack@.contains(i as usize));
                }
                marks_complete(db, marked@, path, cutoff, now, x);
            }
        }
    }
    marked
}

/// The key by which pruned objects are listed.
struct Listed {
    name: String,
    hash: String,
    size: i64,
}

impl Ordered for Listed {
    closed spec fn le(self, other: Self) -> bool {
        text_lt(self.name@, other.name@) || (self.name@ == other.name@ && text_le(
            self.hash@,
            other.hash@,
        ))
    }

    proof fn le_total(a: Self, b: Self) {
        text_lt_total(a.name@, b.name@);
        text_lt_total(a.hash@, b.hash@);
    }

    proof fn le_transitive(a: Self, b: Self, c: Self) {
        text_lt_total(a.hash@, b.hash@);
        text_lt_total(b.hash@, c.hash@);
        text_lt_irreflexive(a.hash@);
        if text_lt(a.name@, b.name@) && text_lt(b.name@, c.name@) {
            text_lt_transitive(a.name@, b.name@, c.name@);
        }
        if text_lt(c.hash@, a.hash@) && a.hash@ != b.hash@ && !text_lt(b.hash@, a.hash@) {
            text_lt_transitive(c.hash@, a.hash@, b.hash@);
        }
    }

    fn not_after(&self, other: &Self) -> (r: bool) {
        less(self.name.as_str(), other.name.as_str()) || (same(
            self.name.as_str(),
            other.name.as_str(),
        ) && !less(other.hash.as_str(), self.hash.as_str()))
    }
}

/// What a prune removes.
fn doomed(db: &Db, cutoff: i64, now: i64) -> (r: Vec<Pruned>)
    requires
        db.wf(),
    ensures
        db@.prune_list(cutoff, now, pruned_view(r@)),
{
    let marked = mark(db, cutoff, now);
    let ghost rows = db.objects.rows@;
    let mut keys: Vec<Listed> = Vec::new();
    let mut i: usize = 0;
    while i < db.objects.rows.len()
        invariant
            db.wf(),
            rows == db.objects.rows@,
            i <= rows.len() == marked@.len(),
            forall|x: int|
                0 <= x < marked@.len() ==> (#[trigger] marked@[x] <==> db@.prune_keeps(
                    rows[x].object.store_path_hash@,
                    cutoff,
                    now,
                )),
            forall|k: int|
                0 <= k < keys@.len() ==> {
                    &&& db@.objects.dom().contains((#[trigger] keys@[k]).hash@)
                    &&& !db@.prune_keeps(keys@[k].hash@, cutoff, now)
                    &&& keys@[k].name@ == db@.objects[keys@[k].hash@].object.name
                    &&& keys@[k].size == db@.objects[keys@[k].hash@].object.file_size
                },
            forall|x: int|
                0 <= x < i && !db@.prune_keeps(
                    (#[trigger] rows[x]).object.store_path_hash@,
                    cutoff,
                    now,
                ) ==> exists|k: int|
                    0 <= k < keys@.len() && (#[trigger] keys@[k]).hash@
                        == rows[x].object.store_path_hash@,
            forall|a: int, b: int|
                0 <= a < b < keys@.len() ==> text_lt(
                    (#[trigger] keys@[a]).hash@,
                    (#[trigger] keys@[b]).hash@,
                ),
            forall|k: int, x: int|
                0 <= k < keys@.len() && i <= x < rows.len() ==> text_lt(
                    (#[trigger] keys@[k]).hash@,
                    (#[trigger] rows[x]).object.store_path_hash@,
                ),
        decreases rows.len() - i,
    {
        let row = &db.objects.rows[i];
        let ghost prior = keys@;
        proof {
            row_under_its_key(rows, i as int);
            assert forall|x: int| i < x < rows.len() implies text_lt(
                row.object.store_path_hash@,
                (#[trigger] rows[x]).object.store_path_hash@,
            ) by {
                assert(text_lt(Row::key_of(rows[i as int]@), Row::key_of(rows[x]@)));
            }
        }
        if !marked[i] {
            keys.push(
                Listed {
                    name: row.object.name.clone(),
                    hash: row.object.store_path_hash.clone(),
                    size: row.object.file_size,
                },
            );
        }
        i += 1;
        proof {
            assert forall|x: int|
                0 <= x < i && !db@.prune_keeps(
                    (#[trigger] rows[x]).object.store_path_hash@,
                    cutoff,
                    now,
                ) implies exists|k: int|
                0 <= k < keys@.len() && (#[trigger] keys@[k]).hash@
                    == rows[x].object.store_path_hash@ by {
                if x < i - 1 {
                    let k = choose|k: int|
                        0 <= k < prior.len() && (#[trigger] prior[k]).hash@
                            == rows[x].object.store_path_hash@;
                    assert(keys@[k].hash@ == rows[x].object.store_path_hash@);
                } else {
                    assert(!marked@[x]);
                    assert(keys@[keys@.len() - 1].hash@ == rows[x].object.store_path_hash@);
                }
            }
        }
    }
    let order = sort_positions(&keys);
    let mut out: Vec<Pruned> = Vec::new();
    let mut j: usize = 0;
    while j < order.len()
        invariant
            j <= order@.len(),
            order@.len() == keys@.len(),
            forall|x: int| 0 <= x < order@.len() ==> 0 <= #[trigger] order@[x] < keys@.len(),
            out@.len() == j,
            forall|x: int|
                0 <= x < j ==> (#[trigger] out@[x]).0@ == keys@[order@[x] as int].hash@
                    && out@[x].1@ == keys@[order@[x] as int].name@ && out@[x].2
                    == keys@[order@[x] as int].size,
        decreases order@.len() - j,
    {
        let key = &keys[order[j]];
        out.push((key.hash.clone(), key.name.clone(), key.size));
        j += 1;
    }
    proof {
        let list = pruned_view(out@);
        assert forall|x: int| 0 <= x < list.len() implies {
            &&& db@.objects.dom().contains((#[trigger] list[x]).0)
            &&& !db@.prune_keeps(list[x].0, cutoff, now)
            &&& list[x].1 == db@.objects[list[x].0].object.name
            &&& list[x].2 == db@.objects[list[x].0].object.file_size
        } by {
            assert(out@[x].0@ == keys@[order@[x] as int].hash@);
        }
        assert forall|x: int, y: int| 0 <= x < y < list.len() implies by_name(
            #[trigger] list[x],
            #[trigger] list[y],
        ) by {
            let a = order@[x] as int;
            let b = order@[y] as int;
            assert(out@[x].0@ == keys@[a].hash@);
            assert(out@[y].0@ == keys@[b].hash@);
            assert(before(keys@, a, b));
            text_lt_total(keys@[a].hash@, keys@[b].hash@);
            text_lt_irreflexive(keys@[a].hash@);
            if a < b {
                assert(text_lt(keys@[a].hash@, keys@[b].hash@));
            } else if b < a {
                assert(text_lt(keys@[b].hash@, keys@[a].hash@));
            }
        }
        assert forall|h: Seq<char>| #[trigger]
            db@.objects.dom().contains(h) && !db@.prune_keeps(h, cutoff, now) implies exists|x: int|
            0 <= x < list.len() && (#[trigger] list[x]).0 == h by {
            let at = key_index(rows, h);
            row_under_its_key(rows, at);
            assert(rows[at].object.store_path_hash@ == h);
            let k = choose|k: int| 0 <= k < keys@.len() && (#[trigger] keys@[k]).hash@ == h;
            assert(order@.contains(k as usize));
            let p = choose|p: int| 0 <= p < order@.len() && order@[p] == k as usize;
            assert(list[p].0 == h);
        }
    }
    out
}

/// The objects under `hs[i]` and `hs[j]` are two, and the first refers to the
/// second.
pub open spec fn needs(db: DbView, hs: Seq<Seq<char>>, i: int, j: int) -> bool {
    &&& 0 <= i < hs.len()
    &&& 0 <= j < hs.len()
    &&& i != j
    &&& db.refers(hs[i], hs[j])
}

/// `order` lists every position of `hs`, each one before what it refers to.
pub open spec fn referrers_come_first(db: DbView, hs: Seq<Seq<char>>, order: Seq<usize>) -> bool {
    &&& order.no_duplicates()
    &&& lists_range(order, 0, hs.len() as int)
    &&& forall|x: int, y: int|
        0 <= x < order.len() && 0 <= y < order.len() && #[trigger] needs(
            db,
            hs,
            order[x] as int,
            order[y] as int,
        ) ==> x < y
}

/// Some of `hs` refer to each other in a cycle: each of them is needed by
/// another of them.
pub open spec fn cyclic(db: DbView, hs: Seq<Seq<char>>) -> bool {
    exists|s: Set<int>| #[trigger] needed_within(db, hs, s)
}

/// `s` is not empty, and each of its members is needed by one of them.
pub open spec fn needed_within(db: DbView, hs: Seq<Seq<char>>, s: Set<int>) -> bool {
    &&& exists|j: int| s.contains(j)
    &&& forall|j: int| #[trigger]
        s.contains(j) ==> 0 <= j < hs.len() && exists|i: int|
            s.contains(i) && #[trigger] needs(db, hs, i, j)
}

/// Where referrers can come first there is no cycle.
pub proof fn ordered_is_not_cyclic(db: DbView, hs: Seq<Seq<char>>, order: Seq<usize>)
    requires
        referrers_come_first(db, hs, order),
        hs.len() <= usize::MAX,
    ensures
        !cyclic(db, hs),
{
    if cyclic(db, hs) {
        let s = choose|s: Set<int>| #[trigger] needed_within(db, hs, s);
        let j = choose|j: int| s.contains(j);
        no_cycle_from(db, hs, order, s, j);
    }
}

/// No member of such a set can come first, so it has none.
proof fn no_cycle_from(db: DbView, hs: Seq<Seq<char>>, order: Seq<usize>, s: Set<int>, j: int)
    requires
        referrers_come_first(db, hs, order),
        needed_within(db, hs, s),
        hs.len() <= usize::MAX,
    ensures
        !s.contains(j),
    decreases order.index_of(j as usize),
{
    if s.contains(j) {
        let i = choose|i: int| s.contains(i) && #[trigger] needs(db, hs, i, j);
        assert(order.contains(i as usize));
        assert(order.contains(j as usize));
        let x = order.index_of(i as usize);
        let y = order.index_of(j as usize);
        assert(needs(db, hs, order[x] as int, order[y] as int));
        no_cycle_from(db, hs, order, s, i);
    }
}

/// Where a hash stands in a list.
struct Slot {
    hash: String,
    at: usize,
}

impl View for Slot {
    type V = (Seq<char>, usize);

    closed spec fn view(&self) -> (Seq<char>, usize) {
        (self.hash@, self.at)
    }
}

impl Keyed for Slot {
    closed spec fn key_of(v: (Seq<char>, usize)) -> Seq<char> {
        v.0
    }

    fn key(&self) -> (r: &str) {
        self.hash.as_str()
    }
}

/// The positions of the hashes of `doomed`.
fn index_of_hashes(doomed: &Vec<Pruned>) -> (r: Table<Slot>)
    requires
        pruned_view(doomed@).map_values(|p: (Seq<char>, Seq<char>, i64)| p.0).no_duplicates(),
    ensures
        r.wf(),
        forall|h: Seq<char>| #[trigger]
            r@.dom().contains(h) ==> r@[h].1 < doomed@.len() && doomed@[r@[h].1 as int].0@ == h,
        forall|i: int| 0 <= i < doomed@.len() ==> r@.dom().contains((#[trigger] doomed@[i]).0@),
{
    let mut out: Table<Slot> = Table::new();
    let mut i: usize = 0;
    while i < doomed.len()
        invariant
            out.wf(),
            i <= doomed@.len(),
            forall|h: Seq<char>| #[trigger]
                out@.dom().contains(h) ==> out@[h].1 < doomed@.len() && doomed@[out@[h].1 as int].0@
                    == h,
            forall|x: int| 0 <= x < i ==> out@.dom().contains((#[trigger] doomed@[x]).0@),
        decreases doomed@.len() - i,
    {
        let slot = Slot { hash: doomed[i].0.clone(), at: i };
        assert(slot@ == (doomed@[i as int].0@, i));
        out.put(slot);
        i += 1;
    }
    out
}

/// The hashes of a list of pruned objects, in its order.
pub open spec fn hashes_of(doomed: Seq<Pruned>) -> Seq<Seq<char>> {
    pruned_view(doomed).map_values(|p: (Seq<char>, Seq<char>, i64)| p.0)
}

/// For each object of `doomed` the others of them that it refers to.
fn edges_within(db: &Db, doomed: &Vec<Pruned>) -> (r: Vec<Vec<usize>>)
    requires
        db.wf(),
        hashes_of(doomed@).no_duplicates(),
    ensures
        r@.len() == doomed@.len(),
        forall|x: int, k: int|
            0 <= x < r@.len() && 0 <= k < r@[x]@.len() ==> (#[trigger] r@[x]@[k]) < doomed@.len(),
        forall|x: int, y: int|
            0 <= x < doomed@.len() && 0 <= y < doomed@.len() ==> (r@[x]@.contains(y as usize)
                <==> #[trigger] needs(db@, hashes_of(doomed@), x, y)),
{
    let n: usize = doomed.len();
    let index = index_of_hashes(doomed);
    let ghost hs = hashes_of(doomed@);
    let mut edges: Vec<Vec<usize>> = Vec::new();
    let mut i: usize = 0;
    while i < n
        invariant
            db.wf(),
            index.wf(),
            hs == hashes_of(doomed@),
            hs.no_duplicates(),
            forall|h: Seq<char>| #[trigger]
                index@.dom().contains(h) ==> index@[h].1 < doomed@.len()
                    && doomed@[index@[h].1 as int].0@ == h,
            forall|x: int| 0 <= x < doomed@.len() ==> index@.dom().contains(
                (#[trigger] doomed@[x]).0@,
            ),
            i <= n == doomed@.len() == hs.len(),
            edges@.len() == i,
            forall|x: int, k: int|
                0 <= x < i && 0 <= k < edges@[x]@.len() ==> (#[trigger] edges@[x]@[k]) < n,
            forall|x: int, y: int|
                0 <= x < i && 0 <= y < n ==> (edges@[x]@.contains(y as usize) <==> #[trigger] needs(
                    db@,
                    hs,
                    x,
                    y,
                )),
        decreases n - i,
    {
        let mut list: Vec<usize> = Vec::new();
        let ghost h = hs[i as int];
        match db.objects.get(doomed[i].0.as_str()) {
            None => {
                assert forall|y: int| 0 <= y < n implies (list@.contains(y as usize)
                    <==> #[trigger] needs(db@, hs, i as int, y)) by {}
            },
            Some(row) => {
                let mut k: usize = 0;
                while k < row.object.references.len()
                    invariant
                        db.wf(),
                        index.wf(),
                        i < n == doomed@.len() == hs.len(),
                        h == hs[i as int],
                        hs == hashes_of(doomed@),
                        hs.no_duplicates(),
                        db@.objects.dom().contains(h),
                        db@.objects[h] == row@,
                        k <= row.object.references@.len(),
                        forall|x: Seq<char>| #[trigger]
                            index@.dom().contains(x) ==> index@[x].1 < doomed@.len()
                                && doomed@[index@[x].1 as int].0@ == x,
                        forall|x: int| 0 <= x < doomed@.len() ==> index@.dom().contains(
                            (#[trigger] doomed@[x]).0@,
                        ),
                        forall|x: int| 0 <= x < list@.len() ==> (#[trigger] list@[x]) < n,
                        forall|y: int|
                            0 <= y < n ==> (#[trigger] list@.contains(y as usize) <==> y != i
                                && exists|x: int|
                                0 <= x < k && reference_hash(
                                    #[trigger] row@.object.references[x],
                                ) == hs[y]),
                    decreases row.object.references@.len() - k,
                {
                    let target = target_of(row.object.references[k].as_str());
                    let ghost prior = list@;
                    assert(row@.object.references[k as int] == row.object.references@[k as int]@);
                    match index.get(target.as_str()) {
                        Some(slot) => {
                            let j: usize = slot.at;
                            assert(hs[j as int] == target@);
                            if j != i {
                                list.push(j);
                            }
                            k += 1;
                            proof {
                                assert forall|y: int| 0 <= y < n implies (
                                #[trigger] list@.contains(y as usize) <==> y != i && exists|x: int|
                                    0 <= x < k && reference_hash(
                                        #[trigger] row@.object.references[x],
                                    ) == hs[y]) by {
                                    if prior.contains(y as usize) {
                                        assert(list@[prior.index_of(y as usize)] == y as usize);
                                    }
                                    if y == j && j != i {
                                        assert(list@[list@.len() - 1] == y as usize);
                                        assert(reference_hash(row@.object.references[k - 1])
                                            == hs[y]);
                                    }
                                    if list@.contains(y as usize) && y != j {
                                        let w = list@.index_of(y as usize);
                                        assert(prior[w] == y as usize);
                                        assert(prior.contains(y as usize));
                                    }
                                    if y != i && (exists|x: int|
                                        0 <= x < k && reference_hash(
                                            #[trigger] row@.object.references[x],
                                        ) == hs[y]) {
                                        let x = choose|x: int|
                                            0 <= x < k && reference_hash(
                                                #[trigger] row@.object.references[x],
                                            ) == hs[y];
                                        if x == k - 1 {
                                            assert(hs[y] == hs[j as int]);
                                        }
                                    }
                                }
                            }
                        },
                        None => {
                            k += 1;
                            proof {
                                assert forall|y: int| 0 <= y < n implies (
                                #[trigger] list@.contains(y as usize) <==> y != i && exists|x: int|
                                    0 <= x < k && reference_hash(
                                        #[trigger] row@.object.references[x],
                                    ) == hs[y]) by {
                                    assert(index@.dom().contains(doomed@[y].0@));
                                    if y != i && (exists|x: int|
                                        0 <= x < k && reference_hash(
                                            #[trigger] row@.object.references[x],
                                        ) == hs[y]) {
                                        let x = choose|x: int|
                                            0 <= x < k && reference_hash(
                                                #[trigger] row@.object.references[x],
                                            ) == hs[y];
                                        assert(x < k - 1);
                                    }
                                }
                            }
                        },
                    }
                }
                assert forall|y: int| 0 <= y < n implies (list@.contains(y as usize)
                    <==> #[trigger] needs(db@, hs, i as int, y)) by {}
            },
        }
        let ghost before_edges = edges@;
        edges.push(list);
        i += 1;
        proof {
            assert forall|x: int, y: int| 0 <= x < i && 0 <= y < n implies (edges@[x]@.contains(
                y as usize,
            ) <==> #[trigger] needs(db@, hs, x, y)) by {
                if x < i - 1 {
                    assert(edges@[x] == before_edges[x]);
                } else {
                    assert(edges@[x] == list);
                }
            }
        }
    }
    edges
}

/// Positions in `doomed`, every referrer before the objects it refers to.
pub fn referrers_first(db: &Db, doomed: &Vec<Pruned>) -> (r: Result<Vec<usize>, DbError>)
    requires
        db.wf(),
        hashes_of(doomed@).no_duplicates(),
    ensures
        r is Err <==> cyclic(db@, hashes_of(doomed@)),
        match r {
            Ok(order) => referrers_come_first(db@, hashes_of(doomed@), order@),
            Err(e) => e == DbError::ReferenceCycle,
        },
{
    let n: usize = doomed.len();
    let ghost hs = hashes_of(doomed@);
    let edges = edges_within(db, doomed);
    let order = kahn(&edges);
    if order.len() != n {
        proof {
            left_out_is_cyclic(db@, hs, edges@, order@);
        }
        return Err(DbError::ReferenceCycle);
    }
    proof {
        nothing_left_out(db@, hs, edges@, order@);
        ordered_is_not_cyclic(db@, hs, order@);
    }
    Ok(order)
}

/// `edges` are the references among `hs`.
spec fn edges_of(db: DbView, hs: Seq<Seq<char>>, edges: Seq<Vec<usize>>) -> bool {
    &&& edges.len() == hs.len()
    &&& hs.len() <= usize::MAX
    &&& forall|x: int, y: int|
        0 <= x < hs.len() && 0 <= y < hs.len() ==> (edges[x]@.contains(y as usize)
            <==> #[trigger] needs(db, hs, x, y))
}

/// What an order leaves out, where each has a referrer left out, is a cycle.
proof fn left_out_is_cyclic(
    db: DbView,
    hs: Seq<Seq<char>>,
    edges: Seq<Vec<usize>>,
    order: Seq<usize>,
)
    requires
        edges_of(db, hs, edges),
        order.no_duplicates(),
        order.len() != hs.len(),
        forall|y: int| 0 <= y < order.len() ==> (#[trigger] order[y]) < hs.len(),
        forall|j: usize|
            j < edges.len() && !(#[trigger] order.contains(j)) ==> exists|i: int| #[trigger]
                has_edge(edges, i, j as int) && !order.contains(i as usize),
    ensures
        cyclic(db, hs),
{
    let n = hs.len() as usize;
    let s = Set::new(|j: int| 0 <= j < n && !order.contains(j as usize));
    if forall|j: int| !s.contains(j) {
        assert forall|j: usize| j < n implies order.contains(j) by {
            assert(!s.contains(j as int));
        }
        full_listing_has_all(order, n);
    }
    assert forall|j: int| #[trigger] s.contains(j) implies 0 <= j < hs.len() && exists|i: int|
        s.contains(i) && #[trigger] needs(db, hs, i, j) by {
        assert(!order.contains(j as usize));
        let i = choose|i: int| #[trigger]
            has_edge(edges, i, (j as usize) as int) && !order.contains(i as usize);
        assert(needs(db, hs, i, j));
        assert(s.contains(i));
    }
    assert(needed_within(db, hs, s));
}

/// An order along the edges that leaves nothing out has referrers first.
proof fn nothing_left_out(
    db: DbView,
    hs: Seq<Seq<char>>,
    edges: Seq<Vec<usize>>,
    order: Seq<usize>,
)
    requires
        edges_of(db, hs, edges),
        order.no_duplicates(),
        order.len() == hs.len(),
        forall|y: int| 0 <= y < order.len() ==> (#[trigger] order[y]) < hs.len(),
        forall|y: int, i: int|
            0 <= y < order.len() && #[trigger] has_edge(edges, i, order[y] as int) ==> exists|
                x: int,
            | 0 <= x < y && order[x] == i,
    ensures
        referrers_come_first(db, hs, order),
{
    listing_of_full_length(order, hs.len() as usize);
    assert forall|x: int, y: int|
        0 <= x < order.len() && 0 <= y < order.len() && #[trigger] needs(
            db,
            hs,
            order[x] as int,
            order[y] as int,
        ) implies x < y by {
        assert(has_edge(edges, order[x] as int, order[y] as int));
        let w = choose|w: int| 0 <= w < y && order[w] == order[x];
        assert(w == x);
    }
}

/// Distinct positions below `n` that hold all of them are `n` in number.
proof fn full_listing_has_all(order: Seq<usize>, n: usize)
    requires
        order.no_duplicates(),
        forall|y: int| 0 <= y < order.len() ==> (#[trigger] order[y]) < n,
        forall|j: usize| j < n ==> order.contains(j),
    ensures
        order.len() == n,
{
    let all = Set::new(|j: usize| j < n);
    order.unique_seq_to_set();
    assert(order.to_set() =~= all);
    below_counts(n);
}

/// `n` distinct positions below `n` are all of them.
proof fn listing_of_full_length(order: Seq<usize>, n: usize)
    requires
        order.no_duplicates(),
        forall|y: int| 0 <= y < order.len() ==> (#[trigger] order[y]) < n,
        order.len() == n,
    ensures
        lists_range(order, 0, n as int),
{
    let all = Set::new(|j: usize| j < n);
    order.unique_seq_to_set();
    below_counts(n);
    assert(order.to_set().subset_of(all));
    vstd::set_lib::lemma_subset_equality(order.to_set(), all);
    assert forall|k: usize| 0 <= k < n as int implies #[trigger] order.contains(k) by {
        assert(all.contains(k));
        assert(order.to_set().contains(k));
    }
}

/// There are `n` positions below `n`.
proof fn below_counts(n: usize)
    ensures
        Set::new(|j: usize| j < n).finite(),
        Set::new(|j: usize| j < n).len() == n,
    decreases n,
{
    let all = Set::new(|j: usize| j < n);
    if n == 0 {
        assert(all =~= Set::<usize>::empty());
    } else {
        let m = (n - 1) as usize;
        below_counts(m);
        assert(all =~= Set::new(|j: usize| j < m).insert(m));
    }
}

/// The hashes at the first `n` positions of `order`.
pub open spec fn first_removed(hs: Seq<Seq<char>>, order: Seq<usize>, n: int) -> Set<Seq<char>> {
    Set::new(
        |h: Seq<char>|
            exists|y: int| 0 <= y < n && 0 <= y < order.len() && hs[#[trigger] order[y] as int] == h,
    )
}

/// The hashes of a prune list are distinct.
proof fn prune_list_distinct(
    db: DbView,
    cutoff: i64,
    now: i64,
    list: Seq<(Seq<char>, Seq<char>, i64)>,
)
    requires
        db.prune_list(cutoff, now, list),
    ensures
        list.map_values(|p: (Seq<char>, Seq<char>, i64)| p.0).no_duplicates(),
{
    let hs = list.map_values(|p: (Seq<char>, Seq<char>, i64)| p.0);
    assert forall|i: int, j: int| 0 <= i < hs.len() && 0 <= j < hs.len() && i != j implies hs[i]
        != hs[j] by {
        let (x, y) = if i < j { (i, j) } else { (j, i) };
        assert(by_name(list[x], list[y]));
        if hs[i] == hs[j] {
            assert(list[x].0 == list[y].0);
            text_lt_irreflexive(list[x].0);
            text_lt_irreflexive(list[x].1);
        }
    }
}

/// A closure that stays is complete: what an object that a prune keeps refers
/// to is kept as well.
pub proof fn prune_keeps_closures(
    db: DbView,
    cutoff: i64,
    now: i64,
    list: Seq<(Seq<char>, Seq<char>, i64)>,
    a: Seq<char>,
    b: Seq<char>,
)
    requires
        db.prune_list(cutoff, now, list),
        objects_less(db.objects, pruned_hashes(list)).dom().contains(a),
        db.refers(a, b),
        db.objects.dom().contains(b),
    ensures
        objects_less(db.objects, pruned_hashes(list)).dom().contains(b),
{
    if !db.prune_keeps(a, cutoff, now) {
        let i = choose|i: int| 0 <= i < list.len() && (#[trigger] list[i]).0 == a;
        assert(pruned_hashes(list).contains(a));
    }
    keeps_follows(db, a, b, cutoff, now);
    if pruned_hashes(list).contains(b) {
        let i = choose|i: int| 0 <= i < list.len() && (#[trigger] list[i]).0 == b;
        assert(!db.prune_keeps(list[i].0, cutoff, now));
    }
}

/// What a negotiation found in the cache, a client relies on until its push is
/// over: for 23 hours no prune removes it.
pub proof fn negotiated_paths_outlive_prunes(
    objects: Map<Seq<char>, RowView>,
    hashes: Seq<Seq<char>>,
    then: i64,
    db: DbView,
    cutoff: i64,
    now: i64,
    list: Seq<(Seq<char>, Seq<char>, i64)>,
    h: Seq<char>,
)
    requires
        db.objects == negotiated(objects, hashes, then),
        hashes.contains(h),
        objects.dom().contains(h),
        db.prune_list(cutoff, now, list),
        cutoff <= now - PRUNE_MIN_AGE,
        now <= then + PRUNE_MIN_AGE - PUSHED_AT_DEBOUNCE,
    ensures
        objects_less(db.objects, pruned_hashes(list)).dom().contains(h),
{
    let path = seq![h];
    assert(reference_path(db, path));
    assert(db.prune_root(path[0], cutoff, now) && path.last() == h);
    assert(db.prune_keeps(h, cutoff, now));
    if pruned_hashes(list).contains(h) {
        let i = choose|i: int| 0 <= i < list.len() && (#[trigger] list[i]).0 == h;
        assert(!db.prune_keeps(list[i].0, cutoff, now));
    }
}

/// However far the removal has come, what is left is complete: an object that
/// is still there has everything it refers to.
pub proof fn prune_prefix_keeps_closures(
    db: DbView,
    cutoff: i64,
    now: i64,
    list: Seq<(Seq<char>, Seq<char>, i64)>,
    order: Seq<usize>,
    n: int,
    a: Seq<char>,
    b: Seq<char>,
)
    requires
        db.prune_list(cutoff, now, list),
        list.len() <= usize::MAX,
        ({
            let hs = list.map_values(|p: (Seq<char>, Seq<char>, i64)| p.0);
            &&& referrers_come_first(db, hs, order)
            &&& 0 <= n <= order.len()
            &&& objects_less(db.objects, first_removed(hs, order, n)).dom().contains(a)
        }),
        db.refers(a, b),
        db.objects.dom().contains(b),
    ensures
        ({
            let hs = list.map_values(|p: (Seq<char>, Seq<char>, i64)| p.0);
            objects_less(db.objects, first_removed(hs, order, n)).dom().contains(b)
        }),
{
    let hs = list.map_values(|p: (Seq<char>, Seq<char>, i64)| p.0);
    let gone = first_removed(hs, order, n);
    prune_list_distinct(db, cutoff, now, list);
    if gone.contains(b) {
        let y = choose|y: int|
            0 <= y < n && 0 <= y < order.len() && hs[#[trigger] order[y] as int] == b;
        let j = order[y] as int;
        assert(list[j].0 == b);
        if db.prune_keeps(a, cutoff, now) {
            keeps_follows(db, a, b, cutoff, now);
        } else {
            let i = choose|i: int| 0 <= i < list.len() && (#[trigger] list[i]).0 == a;
            assert(order.contains(i as usize));
            let x = order.index_of(i as usize);
            assert(hs[order[x] as int] == a);
            assert(x >= n);
            if i != j {
                assert(needs(db, hs, order[x] as int, order[y] as int));
            }
        }
    }
}

/// Removes every object last pushed before `cutoff` that no closure which stays
/// needs: what is reached by references from objects pushed since and from live
/// pins stays, the rest goes, referrers before what they refer to. A dry run
/// only lists. The blobs are deleted afterwards.
pub fn prune(db: &mut Db, cutoff: i64, now: i64, dry_run: bool) -> (r: Result<
    Vec<Pruned>,
    DbError,
>)
    requires
        old(db).wf(),
        i64::MIN + sum_sizes(old(db).objects.rows@) <= old(db).total_bytes,
    ensures
        final(db).wf(),
        r is Err && r->Err_0 is CutoffTooRecent <==> cutoff > now - PRUNE_MIN_AGE,
        r is Err && r->Err_0 is ReferenceCycle <==> cutoff <= now - PRUNE_MIN_AGE && !dry_run
            && exists|list: Seq<(Seq<char>, Seq<char>, i64)>| #[trigger]
            old(db)@.prune_list(cutoff, now, list) && cyclic(
                old(db)@,
                list.map_values(|p: (Seq<char>, Seq<char>, i64)| p.0),
            ),
        r is Err ==> *final(db) == *old(db) && (r->Err_0 is CutoffTooRecent
            || r->Err_0 is ReferenceCycle),
        r matches Ok(out) ==> {
            let list = pruned_view(out@);
            &&& old(db)@.prune_list(cutoff, now, list)
            &&& dry_run ==> *final(db) == *old(db)
            &&& !dry_run ==> {
                &&& final(db)@.objects == objects_less(old(db)@.objects, pruned_hashes(list))
                &&& final(db)@.pins == pins_less(old(db)@.pins, pruned_hashes(list))
                &&& list.len() == 0 ==> final(db).total_bytes == old(db).total_bytes
                &&& list.len() > 0 ==> final(db).total_bytes == crate::db::debited(
                    old(db).total_bytes as int,
                    sum_sizes(old(db).objects.rows@) - sum_sizes(final(db).objects.rows@),
                )
            }
        },
        old(db).counted() ==> final(db).counted(),
{
    if cutoff as i128 > now as i128 - PRUNE_MIN_AGE as i128 {
        return Err(DbError::CutoffTooRecent);
    }
    let gone = doomed(db, cutoff, now);
    let ghost list = pruned_view(gone@);
    let ghost hs = hashes_of(gone@);
    proof {
        prune_list_distinct(db@, cutoff, now, list);
    }
    if dry_run {
        return Ok(gone);
    }
    let order = match referrers_first(db, &gone) {
        Ok(order) => {
            proof {
                assert forall|other: Seq<(Seq<char>, Seq<char>, i64)>| #[trigger]
                    old(db)@.prune_list(cutoff, now, other) implies !cyclic(
                    old(db)@,
                    other.map_values(|p: (Seq<char>, Seq<char>, i64)| p.0),
                ) by {
                    prune_list_unique(old(db)@, cutoff, now, list, other);
                }
            }
            order
        },
        Err(e) => {
            return Err(e);
        },
    };
    let ghost first = db@;
    let ghost bytes = sum_sizes(db.objects.rows@);
    let ghost total = db.total_bytes;
    let mut i: usize = 0;
    proof {
        assert(first_removed(hs, order@, 0) =~= Set::<Seq<char>>::empty());
        assert(db@.objects =~= objects_less(first.objects, first_removed(hs, order@, 0)));
        assert(db@.pins =~= pins_less(first.pins, first_removed(hs, order@, 0)));
        crate::db::sum_is_not_negative(db);
    }
    while i < order.len()
        invariant
            db.wf(),
            list == pruned_view(gone@),
            hs == hashes_of(gone@),
            hs.no_duplicates(),
            hs.len() == gone@.len() == order@.len(),
            first.prune_list(cutoff, now, list),
            order@.no_duplicates(),
            forall|y: int| 0 <= y < order@.len() ==> (#[trigger] order@[y]) < gone@.len(),
            i <= order@.len(),
            db@.objects == objects_less(first.objects, first_removed(hs, order@, i as int)),
            db@.pins == pins_less(first.pins, first_removed(hs, order@, i as int)),
            i64::MIN + bytes <= total,
            0 <= sum_sizes(db.objects.rows@) <= bytes,
            i == 0 ==> db.total_bytes == total && sum_sizes(db.objects.rows@) == bytes,
            i > 0 ==> db.total_bytes == crate::db::debited(
                total as int,
                bytes - sum_sizes(db.objects.rows@),
            ),
            old(db).counted() ==> db.counted(),
        decreases order@.len() - i,
    {
        let at: usize = order[i];
        let hash = gone[at].0.as_str();
        let ghost h = hs[at as int];
        proof {
            assert(list[at as int].0 == h);
            if first_removed(hs, order@, i as int).contains(h) {
                let y = choose|y: int|
                    0 <= y < i && 0 <= y < order@.len() && hs[#[trigger] order@[y] as int] == h;
                assert(order@[y] == order@[i as int]);
            }
            assert(db@.objects.dom().contains(h));
            crate::db::sum_bounds_row(db, h);
        }
        let _ = delete_object(db, hash);
        proof {
            let was = first_removed(hs, order@, i as int);
            let now_gone = first_removed(hs, order@, i as int + 1);
            assert forall|x: Seq<char>| now_gone.contains(x) == (was.contains(x) || x == h) by {
                if now_gone.contains(x) {
                    let y = choose|y: int|
                        0 <= y < i + 1 && 0 <= y < order@.len() && hs[#[trigger] order@[y] as int]
                            == x;
                    if y < i {
                        assert(was.contains(x));
                    }
                }
                if was.contains(x) {
                    let y = choose|y: int|
                        0 <= y < i && 0 <= y < order@.len() && hs[#[trigger] order@[y] as int] == x;
                    assert(hs[order@[y] as int] == x);
                }
                assert(hs[order@[i as int] as int] == h);
            }
            assert(db@.objects =~= objects_less(first.objects, now_gone));
            assert(db@.pins =~= pins_less(first.pins, now_gone));
            crate::db::sum_is_not_negative(db);
        }
        i += 1;
    }
    proof {
        let all = first_removed(hs, order@, i as int);
        assert forall|x: Seq<char>| all.contains(x) == pruned_hashes(list).contains(x) by {
            if all.contains(x) {
                let y = choose|y: int|
                    0 <= y < i && 0 <= y < order@.len() && hs[#[trigger] order@[y] as int] == x;
                assert(list[order@[y] as int].0 == x);
            }
            if pruned_hashes(list).contains(x) {
                let k = choose|k: int| 0 <= k < list.len() && (#[trigger] list[k]).0 == x;
                assert(order@.contains(k as usize));
                let y = order@.index_of(k as usize);
                assert(hs[order@[y] as int] == x);
            }
        }
        assert(all =~= pruned_hashes(list));
    }
    Ok(gone)
}

/// There is one prune list.
pub proof fn prune_list_unique(
    db: DbView,
    cutoff: i64,
    now: i64,
    a: Seq<(Seq<char>, Seq<char>, i64)>,
    b: Seq<(Seq<char>, Seq<char>, i64)>,
)
    requires
        db.prune_list(cutoff, now, a),
        db.prune_list(cutoff, now, b),
    ensures
        a == b,
    decreases a.len() + b.len(),
{
    prune_list_prefix(db, cutoff, now, a, b, a.len() as int);
    prune_list_prefix(db, cutoff, now, b, a, b.len() as int);
    assert(a =~= b);
}

/// The first `n` entries of one prune list are those of another.
proof fn prune_list_prefix(
    db: DbView,
    cutoff: i64,
    now: i64,
    a: Seq<(Seq<char>, Seq<char>, i64)>,
    b: Seq<(Seq<char>, Seq<char>, i64)>,
    n: int,
)
    requires
        db.prune_list(cutoff, now, a),
        db.prune_list(cutoff, now, b),
        0 <= n <= a.len(),
    ensures
        n <= b.len(),
        forall|i: int| 0 <= i < n ==> a[i] == b[i],
    decreases n,
{
    if n > 0 {
        prune_list_prefix(db, cutoff, now, a, b, n - 1);
        let k = n - 1;
        // Where the entry of `a` stands in `b`.
        let x = choose|x: int| 0 <= x < b.len() && (#[trigger] b[x]).0 == a[k].0;
        assert(b[x] == a[k]);
        if x < k {
            assert(a[x] == b[x]);
            assert(by_name(a[x], a[k]));
            text_lt_irreflexive(a[k].0);
            text_lt_irreflexive(a[k].1);
        } else if x > k {
            let y = choose|y: int| 0 <= y < a.len() && (#[trigger] a[y]).0 == b[k].0;
            assert(a[y] == b[k]);
            assert(by_name(b[k], b[x]));
            text_lt_irreflexive(a[k].0);
            text_lt_irreflexive(a[k].1);
            if y < k {
                assert(a[y] == b[y]);
                assert(by_name(b[y], b[k]));
                text_lt_irreflexive(b[k].0);
                text_lt_irreflexive(b[k].1);
            } else if y > k {
                assert(by_name(a[k], a[y]));
                text_lt_total(a[k].0, a[y].0);
                text_lt_total(a[k].1, a[y].1);
            }
        }
    }
}

/// What one entry takes is gone from the bytes of a list without it.
proof fn bytes_without(list: Seq<(Seq<char>, Seq<char>, i64)>, p: int)
    requires
        0 <= p < list.len(),
    ensures
        pruned_bytes(list) == pruned_bytes(list.remove(p)) + list[p].2,
    decreases list.len(),
{
    let rest = list.remove(p);
    if p == list.len() - 1 {
        assert(rest =~= list.drop_last());
    } else {
        bytes_without(list.drop_last(), p);
        assert(rest.drop_last() =~= list.drop_last().remove(p));
        assert(rest.last() == list.last());
    }
}

/// Entry `i` of `list` tells of one of `rows`.
spec fn entry_in(rows: Seq<Row>, e: (Seq<char>, Seq<char>, i64)) -> bool {
    exists|k: int|
        0 <= k < rows.len() && (#[trigger] rows[k]).object.store_path_hash@ == e.0
            && rows[k].object.file_size == e.2
}

proof fn bytes_within(rows: Seq<Row>, list: Seq<(Seq<char>, Seq<char>, i64)>)
    requires
        forall|i: int| 0 <= i < list.len() ==> entry_in(rows, #[trigger] list[i]),
        forall|i: int, j: int| 0 <= i < j < list.len() ==> (#[trigger] list[i]).0 != (#[trigger] list[j]).0,
        forall|k: int, l: int|
            0 <= k < l < rows.len() ==> (#[trigger] rows[k]).object.store_path_hash@
                != (#[trigger] rows[l]).object.store_path_hash@,
        forall|k: int| 0 <= k < rows.len() ==> (#[trigger] rows[k]).object.file_size >= 0,
    ensures
        0 <= pruned_bytes(list) <= sum_sizes(rows),
    decreases rows.len(),
{
    if rows.len() == 0 {
        if list.len() > 0 {
            assert(entry_in(rows, list[0]));
        }
    } else {
        let last = rows.last();
        let init = rows.drop_last();
        if exists|p: int| 0 <= p < list.len() && (#[trigger] list[p]).0 == last.object.store_path_hash@ {
            let p = choose|p: int|
                0 <= p < list.len() && (#[trigger] list[p]).0 == last.object.store_path_hash@;
            let rest = list.remove(p);
            bytes_without(list, p);
            assert(entry_in(rows, list[p]));
            assert(list[p].2 == last.object.file_size) by {
                let k = choose|k: int|
                    0 <= k < rows.len() && (#[trigger] rows[k]).object.store_path_hash@ == list[p].0
                        && rows[k].object.file_size == list[p].2;
                assert(rows[k].object.store_path_hash@ == rows[rows.len() - 1].object.store_path_hash@);
            }
            assert forall|i: int| 0 <= i < rest.len() implies entry_in(init, #[trigger] rest[i]) by {
                let j = if i < p { i } else { i + 1 };
                assert(rest[i] == list[j]);
                assert(entry_in(rows, list[j]));
                let k = choose|k: int|
                    0 <= k < rows.len() && (#[trigger] rows[k]).object.store_path_hash@ == list[j].0
                        && rows[k].object.file_size == list[j].2;
                if k == rows.len() - 1 {
                    assert(list[j].0 == list[p].0);
                }
                assert(init[k] == rows[k]);
            }
            assert forall|i: int, j: int| 0 <= i < j < rest.len() implies (#[trigger] rest[i]).0
                != (#[trigger] rest[j]).0 by {
                let x = if i < p { i } else { i + 1 };
                let y = if j < p { j } else { j + 1 };
                assert(rest[i] == list[x] && rest[j] == list[y]);
            }
            bytes_within(init, rest);
        } else {
            assert forall|i: int| 0 <= i < list.len() implies entry_in(init, #[trigger] list[i]) by {
                assert(entry_in(rows, list[i]));
                let k = choose|k: int|
                    0 <= k < rows.len() && (#[trigger] rows[k]).object.store_path_hash@ == list[i].0
                        && rows[k].object.file_size == list[i].2;
                assert(init[k] == rows[k]);
            }
            bytes_within(init, list);
        }
    }
}

/// What a prune reclaims is at most what all blobs take.
pub proof fn pruned_bytes_fit(db: &Db, cutoff: i64, now: i64, list: Seq<(Seq<char>, Seq<char>, i64)>, n: int)
    requires
        db.wf(),
        db@.prune_list(cutoff, now, list),
        0 <= n <= list.len(),
    ensures
        0 <= pruned_bytes(list.take(n)) <= sum_sizes(db.objects.rows@),
{
    let rows = db.objects.rows@;
    let part = list.take(n);
    prune_list_distinct(db@, cutoff, now, list);
    let hs = list.map_values(|p: (Seq<char>, Seq<char>, i64)| p.0);
    crate::db::rows_stand_under_their_hash(db);
    assert forall|i: int| 0 <= i < part.len() implies entry_in(rows, #[trigger] part[i]) by {
        assert(db@.objects.dom().contains(list[i].0));
        let k = key_index(rows, list[i].0);
        row_under_its_key(rows, k);
        assert(rows[k].object.store_path_hash@ == list[i].0);
    }
    assert forall|i: int, j: int| 0 <= i < j < part.len() implies (#[trigger] part[i]).0
        != (#[trigger] part[j]).0 by {
        assert(hs[i] == part[i].0 && hs[j] == part[j].0);
    }
    assert forall|k: int, l: int| 0 <= k < l < rows.len() implies (#[trigger] rows[k]).object.store_path_hash@
        != (#[trigger] rows[l]).object.store_path_hash@ by {
        assert(text_lt(rows[k].object.store_path_hash@, rows[l].object.store_path_hash@));
        text_lt_irreflexive(rows[k].object.store_path_hash@);
    }
    assert forall|k: int| 0 <= k < rows.len() implies (#[trigger] rows[k]).object.file_size >= 0 by {
        row_under_its_key(rows, k);
        assert(db@.objects.dom().contains(rows[k].object.store_path_hash@));
    }
    bytes_within(rows, part);
}

/// A prune takes nothing that was pushed since the cutoff, nothing that a live
/// pin stands on, and nothing that an object which it leaves refers to; it tells
/// name and size of what it takes.
pub proof fn prunes_take_only_what_nothing_needs(
    db: DbView,
    cutoff: i64,
    now: i64,
    list: Seq<(Seq<char>, Seq<char>, i64)>,
    i: int,
)
    requires
        db.prune_list(cutoff, now, list),
        0 <= i < list.len(),
    ensures
        db.objects.dom().contains(list[i].0),
        db.objects[list[i].0].pushed_at < cutoff,
        list[i].1 == db.objects[list[i].0].object.name,
        list[i].2 == db.objects[list[i].0].object.file_size,
        forall|n: Seq<char>| #[trigger]
            db.pins.dom().contains(n) && db.pins[n].store_path_hash == list[i].0
                ==> db.pins[n].expires_at is Some && db.pins[n].expires_at->0 <= now,
        forall|a: Seq<char>, k: int|
            #![trigger db.objects[a].object.references[k]]
            db.objects.dom().contains(a) && 0 <= k < db.objects[a].object.references.len()
                && db.objects[a].object.references[k].len() >= 32
                && db.objects[a].object.references[k].take(32) == list[i].0 ==> exists|j: int|
                0 <= j < list.len() && (#[trigger] list[j]).0 == a,
        forall|j: int|
            i < j < list.len() ==> text_lt(list[i].1, (#[trigger] list[j]).1) || (list[i].1
                == list[j].1 && text_lt(list[i].0, list[j].0)),
{
    let h = list[i].0;
    assert(!db.prune_keeps(h, cutoff, now));
    if db.prune_root(h, cutoff, now) {
        keeps_root(db, h, cutoff, now);
    }
    assert forall|n: Seq<char>| #[trigger]
        db.pins.dom().contains(n) && db.pins[n].store_path_hash == h implies db.pins[n].expires_at is Some
        && db.pins[n].expires_at->0 <= now by {
        if db.pins[n].live(now) {
            assert(db.pinned(h, now));
        }
    }
    assert forall|a: Seq<char>, k: int|
        #![trigger db.objects[a].object.references[k]]
        db.objects.dom().contains(a) && 0 <= k < db.objects[a].object.references.len()
            && db.objects[a].object.references[k].len() >= 32
            && db.objects[a].object.references[k].take(32) == h implies exists|j: int|
        0 <= j < list.len() && (#[trigger] list[j]).0 == a by {
        let r = db.objects[a].object.references[k];
        assert(r.take(32) =~= reference_hash(r));
        assert(db.refers(a, h));
        if db.prune_keeps(a, cutoff, now) {
            keeps_follows(db, a, h, cutoff, now);
        }
    }
    assert forall|j: int| i < j < list.len() implies text_lt(list[i].1, (#[trigger] list[j]).1) || (
    list[i].1 == list[j].1 && text_lt(list[i].0, list[j].0)) by {
        assert(by_name(list[i], list[j]));
    }
}

/// `stay` holds what was pushed since the cutoff, what a live pin stands on, and
/// with each object what it refers to.
pub open spec fn is_complete(db: DbView, cutoff: i64, now: i64, stay: Set<Seq<char>>) -> bool {
    &&& forall|h: Seq<char>| #[trigger]
        db.objects.dom().contains(h) && db.objects[h].pushed_at >= cutoff ==> stay.contains(h)
    &&& forall|n: Seq<char>| #[trigger]
        db.pins.dom().contains(n) && (db.pins[n].expires_at is None || db.pins[n].expires_at->0
            > now) ==> stay.contains(db.pins[n].store_path_hash)
    &&& forall|h: Seq<char>, k: int|
        #![trigger db.objects[h].object.references[k]]
        stay.contains(h) && db.objects.dom().contains(h) && 0 <= k
            < db.objects[h].object.references.len() ==> stay.contains(
            if db.objects[h].object.references[k].len() <= 32 {
                db.objects[h].object.references[k]
            } else {
                db.objects[h].object.references[k].take(32)
            },
        )
}

proof fn paths_stay_complete(
    db: DbView,
    cutoff: i64,
    now: i64,
    stay: Set<Seq<char>>,
    path: Seq<Seq<char>>,
    i: int,
)
    requires
        is_complete(db, cutoff, now, stay),
        reference_path(db, path),
        db.prune_root(path[0], cutoff, now),
        0 <= i < path.len(),
    ensures
        stay.contains(path[i]),
    decreases i,
{
    if i > 0 {
        paths_stay_complete(db, cutoff, now, stay, path, i - 1);
        assert(db.refers(path[i - 1], path[i - 1 + 1]));
        let k = choose|k: int|
            0 <= k < db.objects[path[i - 1]].object.references.len() && reference_hash(
                #[trigger] db.objects[path[i - 1]].object.references[k],
            ) == path[i];
        assert(stay.contains(reference_hash(db.objects[path[i - 1]].object.references[k])));
    } else if db.pinned(path[0], now) {
        let n = choose|n: Seq<char>| #[trigger]
            db.pins.dom().contains(n) && db.pins[n].store_path_hash == path[0]
                && db.pins[n].live(now);
        assert(stay.contains(db.pins[n].store_path_hash));
    }
}

/// A prune takes all that it may: whatever lies outside some set that is complete
/// goes.
pub proof fn prunes_take_all_that_nothing_needs(
    db: DbView,
    cutoff: i64,
    now: i64,
    list: Seq<(Seq<char>, Seq<char>, i64)>,
    stay: Set<Seq<char>>,
    h: Seq<char>,
)
    requires
        db.prune_list(cutoff, now, list),
        is_complete(db, cutoff, now, stay),
        db.objects.dom().contains(h),
        !stay.contains(h),
    ensures
        pruned_hashes(list).contains(h),
        exists|i: int| 0 <= i < list.len() && (#[trigger] list[i]).0 == h,
{
    if db.prune_keeps(h, cutoff, now) {
        let path = choose|path: Seq<Seq<char>>| #[trigger]
            reference_path(db, path) && db.prune_root(path[0], cutoff, now) && path.last() == h;
        paths_stay_complete(db, cutoff, now, stay, path, path.len() - 1);
    }
}

/// What a prune frees is what the blobs that it takes took, and it refuses
/// cutoffs of the last day.
pub proof fn prunes_are_accounted_for(
    list: Seq<(Seq<char>, Seq<char>, i64)>,
    one: (Seq<char>, Seq<char>, i64),
    cutoff: i64,
    now: i64,
    h: Seq<char>,
)
    ensures
        pruned_bytes(Seq::empty()) == 0,
        pruned_bytes(list.push(one)) == pruned_bytes(list) + one.2,
        pruned_hashes(list.push(one)).contains(h) <==> pruned_hashes(list).contains(h) || h == one.0,
        !pruned_hashes(Seq::empty()).contains(h),
        cutoff > now - PRUNE_MIN_AGE <==> now - cutoff < 86400,
{
    let more = list.push(one);
    assert(more.drop_last() =~= list);
    if pruned_hashes(list).contains(h) {
        let i = choose|i: int| 0 <= i < list.len() && (#[trigger] list[i]).0 == h;
        assert(more[i].0 == h);
    }
    assert(more[list.len() as int].0 == one.0);
    if pruned_hashes(more).contains(h) {
        let i = choose|i: int| 0 <= i < more.len() && (#[trigger] more[i]).0 == h;
        if i < list.len() {
            assert(list[i].0 == h);
        }
    }
}

/// What a prune takes is seen with the hash, the name and the size that it has.
pub proof fn pruned_are_seen_as_they_are(v: Seq<Pruned>, i: int)
    requires
        0 <= i < v.len(),
    ensures
        pruned_view(v).len() == v.len(),
        pruned_view(v)[i].0 == v[i].0@,
        pruned_view(v)[i].1 == v[i].1@,
        pruned_view(v)[i].2 == v[i].2,
{
}

} // verus!
