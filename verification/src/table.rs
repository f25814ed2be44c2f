//! A table of rows under a text key, kept in key order.

use vstd::prelude::*;

use crate::text::{less, same, text_lt, text_lt_irreflexive, text_lt_total, text_lt_transitive};

verus! {

/// A row that a [`Table`] can hold.
pub trait Keyed: View + Sized {
    /// The key of a row that holds `v`.
    spec fn key_of(v: Self::V) -> Seq<char>;

    /// The row's key.
    fn key(&self) -> (r: &str)
        ensures
            r@ == Self::key_of(self@),
    ;
}

/// Rows, no two under one key.
pub struct Table<R> {
    /// The rows in the order of their keys.
    pub rows: Vec<R>,
}

/// Some row of `rows` has key `k`.
pub open spec fn has_key<R: Keyed>(rows: Seq<R>, k: Seq<char>) -> bool {
    exists|i: int| 0 <= i < rows.len() && R::key_of((#[trigger] rows[i])@) == k
}

/// Where the row under `k` stands.
pub open spec fn key_index<R: Keyed>(rows: Seq<R>, k: Seq<char>) -> int {
    choose|i: int| 0 <= i < rows.len() && R::key_of((#[trigger] rows[i])@) == k
}

/// The keys of `rows` rise strictly.
pub open spec fn keys_rise<R: Keyed>(rows: Seq<R>) -> bool {
    forall|i: int, j: int|
        0 <= i < j < rows.len() ==> text_lt(
            R::key_of((#[trigger] rows[i])@),
            R::key_of((#[trigger] rows[j])@),
        )
}

/// What `rows` holds under each key.
pub open spec fn by_key<R: Keyed>(rows: Seq<R>) -> Map<Seq<char>, R::V> {
    Map::new(|k: Seq<char>| has_key(rows, k), |k: Seq<char>| rows[key_index(rows, k)]@)
}

/// `new` is `rows` with `r` at `at`: in place of the row under its key, or
/// between the others where there was none.
pub open spec fn placed<R: Keyed>(rows: Seq<R>, new: Seq<R>, r: R, at: int) -> bool {
    if has_key(rows, R::key_of(r@)) {
        &&& 0 <= at < rows.len()
        &&& R::key_of(rows[at]@) == R::key_of(r@)
        &&& new == rows.update(at, r)
    } else {
        &&& 0 <= at <= rows.len()
        &&& new == rows.insert(at, r)
    }
}

impl<R: Keyed> View for Table<R> {
    type V = Map<Seq<char>, R::V>;

    open spec fn view(&self) -> Map<Seq<char>, R::V> {
        by_key(self.rows@)
    }
}

/// A row stands under its own key, and nowhere else.
pub proof fn row_under_its_key<R: Keyed>(rows: Seq<R>, i: int)
    requires
        keys_rise(rows),
        0 <= i < rows.len(),
    ensures
        has_key(rows, R::key_of(rows[i]@)),
        key_index(rows, R::key_of(rows[i]@)) == i,
        by_key(rows).dom().contains(R::key_of(rows[i]@)),
        by_key(rows)[R::key_of(rows[i]@)] == rows[i]@,
{
    let k = R::key_of(rows[i]@);
    let j = key_index(rows, k);
    text_lt_irreflexive(k);
    assert(0 <= j < rows.len() && R::key_of(rows[j]@) == k);
    if j < i {
        assert(text_lt(R::key_of(rows[j]@), R::key_of(rows[i]@)));
    } else if i < j {
        assert(text_lt(R::key_of(rows[i]@), R::key_of(rows[j]@)));
    }
}

/// What inserting a row under a new key does.
pub proof fn by_key_insert<R: Keyed>(rows: Seq<R>, at: int, r: R)
    requires
        keys_rise(rows),
        0 <= at <= rows.len(),
        !has_key(rows, R::key_of(r@)),
        keys_rise(rows.insert(at, r)),
    ensures
        by_key(rows.insert(at, r)) == by_key(rows).insert(R::key_of(r@), r@),
{
    let new = rows.insert(at, r);
    let kr = R::key_of(r@);
    let target = by_key(rows).insert(kr, r@);
    assert forall|k: Seq<char>| by_key(new).dom().contains(k) == target.dom().contains(k) by {
        if has_key(new, k) {
            let i = key_index(new, k);
            if i < at {
                assert(rows[i] == new[i]);
            } else if i > at {
                assert(rows[i - 1] == new[i]);
            }
        }
        if has_key(rows, k) {
            let i = key_index(rows, k);
            if i < at {
                assert(new[i] == rows[i]);
            } else {
                assert(new[i + 1] == rows[i]);
            }
        }
        assert(new[at] == r);
    }
    assert forall|k: Seq<char>| by_key(new).dom().contains(k) implies by_key(new)[k] == target[k] by {
        if k == kr {
            assert(new[at] == r);
            row_under_its_key(new, at);
        } else {
            let i = key_index(rows, k);
            assert(has_key(rows, k));
            let j = if i < at { i } else { i + 1 };
            assert(new[j] == rows[i]);
            row_under_its_key(new, j);
        }
    }
    assert(by_key(new) =~= target);
}

/// What exchanging a row for one under the same key does.
pub proof fn by_key_update<R: Keyed>(rows: Seq<R>, at: int, r: R)
    requires
        keys_rise(rows),
        0 <= at < rows.len(),
        R::key_of(rows[at]@) == R::key_of(r@),
    ensures
        keys_rise(rows.update(at, r)),
        by_key(rows.update(at, r)) == by_key(rows).insert(R::key_of(r@), r@),
{
    let new = rows.update(at, r);
    let kr = R::key_of(r@);
    let target = by_key(rows).insert(kr, r@);
    assert forall|i: int, j: int| 0 <= i < j < new.len() implies text_lt(
        R::key_of((#[trigger] new[i])@),
        R::key_of((#[trigger] new[j])@),
    ) by {
        assert(text_lt(R::key_of(rows[i]@), R::key_of(rows[j]@)));
    }
    assert forall|k: Seq<char>| by_key(new).dom().contains(k) == target.dom().contains(k) by {
        if has_key(new, k) {
            let i = key_index(new, k);
            if i != at {
                assert(rows[i] == new[i]);
            }
        }
        if has_key(rows, k) {
            let i = key_index(rows, k);
            if i != at {
                assert(new[i] == rows[i]);
            }
        }
        assert(new[at] == r);
    }
    assert forall|k: Seq<char>| by_key(new).dom().contains(k) implies by_key(new)[k] == target[k] by {
        if k == kr {
            row_under_its_key(new, at);
        } else {
            let i = key_index(rows, k);
            assert(has_key(rows, k));
            assert(new[i] == rows[i]);
            row_under_its_key(new, i);
        }
    }
    assert(by_key(new) =~= target);
}

/// What removing a row does.
pub proof fn by_key_remove<R: Keyed>(rows: Seq<R>, at: int)
    requires
        keys_rise(rows),
        0 <= at < rows.len(),
    ensures
        keys_rise(rows.remove(at)),
        by_key(rows.remove(at)) == by_key(rows).remove(R::key_of(rows[at]@)),
{
    let new = rows.remove(at);
    let kr = R::key_of(rows[at]@);
    let target = by_key(rows).remove(kr);
    assert forall|i: int, j: int| 0 <= i < j < new.len() implies text_lt(
        R::key_of((#[trigger] new[i])@),
        R::key_of((#[trigger] new[j])@),
    ) by {
        let a = if i < at { i } else { i + 1 };
        let b = if j < at { j } else { j + 1 };
        assert(text_lt(R::key_of(rows[a]@), R::key_of(rows[b]@)));
    }
    assert forall|k: Seq<char>| by_key(new).dom().contains(k) == target.dom().contains(k) by {
        if has_key(new, k) {
            let i = key_index(new, k);
            let a = if i < at { i } else { i + 1 };
            assert(rows[a] == new[i]);
            if k == kr {
                row_under_its_key(rows, at);
                row_under_its_key(rows, a);
            }
        }
        if has_key(rows, k) && k != kr {
            let i = key_index(rows, k);
            let b = if i < at { i } else { i - 1 };
            assert(new[b] == rows[i]);
        }
    }
    assert forall|k: Seq<char>| by_key(new).dom().contains(k) implies by_key(new)[k] == target[k] by {
        assert(target.dom().contains(k));
        assert(has_key(rows, k));
        let i = key_index(rows, k);
        let b = if i < at { i } else { i - 1 };
        assert(new[b] == rows[i]);
        row_under_its_key(new, b);
    }
    assert(by_key(new) =~= target);
}

impl<R: Keyed> Table<R> {
    /// The keys rise strictly.
    pub open spec fn wf(self) -> bool {
        keys_rise(self.rows@)
    }

    /// A table without rows.
    pub fn new() -> (r: Self)
        ensures
            r.wf(),
            r@ == Map::<Seq<char>, R::V>::empty(),
            r.rows@.len() == 0,
    {
        let r = Table { rows: Vec::new() };
        assert(r@ =~= Map::<Seq<char>, R::V>::empty());
        r
    }

    /// The first position whose key is not before `key`.
    fn lower_bound(&self, key: &str) -> (r: usize)
        requires
            self.wf(),
        ensures
            r <= self.rows@.len(),
            forall|i: int| 0 <= i < r ==> text_lt(R::key_of((#[trigger] self.rows@[i])@), key@),
            forall|i: int|
                r <= i < self.rows@.len() ==> !text_lt(
                    R::key_of((#[trigger] self.rows@[i])@),
                    key@,
                ),
    {
        let mut lo: usize = 0;
        let mut hi: usize = self.rows.len();
        while lo < hi
            invariant
                self.wf(),
                lo <= hi <= self.rows@.len(),
                forall|i: int| 0 <= i < lo ==> text_lt(R::key_of((#[trigger] self.rows@[i])@), key@),
                forall|i: int|
                    hi <= i < self.rows@.len() ==> !text_lt(
                        R::key_of((#[trigger] self.rows@[i])@),
                        key@,
                    ),
            decreases hi - lo,
        {
            let mid: usize = lo + (hi - lo) / 2;
            let ghost km = R::key_of(self.rows@[mid as int]@);
            if less(self.rows[mid].key(), key) {
                proof {
                    assert forall|i: int| 0 <= i < mid + 1 implies text_lt(
                        R::key_of((#[trigger] self.rows@[i])@),
                        key@,
                    ) by {
                        if i < mid {
                            text_lt_transitive(R::key_of(self.rows@[i]@), km, key@);
                        }
                    }
                }
                lo = mid + 1;
            } else {
                proof {
                    assert forall|i: int| mid <= i < self.rows@.len() implies !text_lt(
                        R::key_of((#[trigger] self.rows@[i])@),
                        key@,
                    ) by {
                        if i > mid && text_lt(R::key_of(self.rows@[i]@), key@) {
                            text_lt_transitive(km, R::key_of(self.rows@[i]@), key@);
                        }
                    }
                }
                hi = mid;
            }
        }
        lo
    }

    /// Where the row under `key` stands.
    pub fn find(&self, key: &str) -> (r: Option<usize>)
        requires
            self.wf(),
        ensures
            match r {
                Some(i) => i < self.rows@.len() && R::key_of(self.rows@[i as int]@) == key@
                    && self@.dom().contains(key@) && self@[key@] == self.rows@[i as int]@,
                None => !self@.dom().contains(key@),
            },
    {
        let at = self.lower_bound(key);
        if at < self.rows.len() && same(self.rows[at].key(), key) {
            proof {
                row_under_its_key(self.rows@, at as int);
            }
            Some(at)
        } else {
            proof {
                if has_key(self.rows@, key@) {
                    let i = key_index(self.rows@, key@);
                    text_lt_irreflexive(key@);
                    if i < at {
                        assert(text_lt(R::key_of(self.rows@[i]@), key@));
                    } else if i > at {
                        assert(text_lt(R::key_of(self.rows@[at as int]@), key@));
                    }
                    assert(false);
                }
            }
            None
        }
    }

    /// Whether a row stands under `key`.
    pub fn has(&self, key: &str) -> (r: bool)
        requires
            self.wf(),
        ensures
            r == self@.dom().contains(key@),
    {
        self.find(key).is_some()
    }

    /// The row under `key`.
    pub fn get(&self, key: &str) -> (r: Option<&R>)
        requires
            self.wf(),
        ensures
            match r {
                Some(row) => self@.dom().contains(key@) && self@[key@] == row@,
                None => !self@.dom().contains(key@),
            },
    {
        match self.find(key) {
            Some(i) => Some(&self.rows[i]),
            None => None,
        }
    }

    /// Puts `r` under its key, in place of what stood there.
    pub fn put(&mut self, r: R)
        requires
            old(self).wf(),
        ensures
            final(self).wf(),
            final(self)@ == old(self)@.insert(R::key_of(r@), r@),
            exists|at: int| placed(old(self).rows@, final(self).rows@, r, at),
    {
        let ghost rows = self.rows@;
        let ghost kr = R::key_of(r@);
        let at = self.lower_bound(r.key());
        let present = at < self.rows.len() && same(self.rows[at].key(), r.key());
        if present {
            proof {
                by_key_update(rows, at as int, r);
                row_under_its_key(rows, at as int);
            }
            self.rows[at] = r;
            assert(placed(rows, self.rows@, r, at as int));
        } else {
            proof {
                if has_key(rows, kr) {
                    let i = key_index(rows, kr);
                    text_lt_irreflexive(kr);
                    if i < at {
                        assert(text_lt(R::key_of(rows[i]@), kr));
                    } else if i > at {
                        assert(text_lt(R::key_of(rows[at as int]@), kr));
                    }
                    assert(false);
                }
                let new = rows.insert(at as int, r);
                assert forall|i: int, j: int| 0 <= i < j < new.len() implies text_lt(
                    R::key_of((#[trigger] new[i])@),
                    R::key_of((#[trigger] new[j])@),
                ) by {
                    if j < at {
                        assert(text_lt(R::key_of(rows[i]@), R::key_of(rows[j]@)));
                    } else if j == at {
                        assert(text_lt(R::key_of(rows[i]@), kr));
                    } else if i < at {
                        assert(text_lt(R::key_of(rows[i]@), R::key_of(rows[j - 1]@)));
                    } else if i == at {
                        assert(!text_lt(R::key_of(rows[j - 1]@), kr));
                        assert(R::key_of(rows[j - 1]@) != kr);
                        text_lt_total(R::key_of(rows[j - 1]@), kr);
                    } else {
                        assert(text_lt(R::key_of(rows[i - 1]@), R::key_of(rows[j - 1]@)));
                    }
                }
                by_key_insert(rows, at as int, r);
            }
            self.rows.insert(at, r);
            assert(placed(rows, self.rows@, r, at as int));
        }
    }

    /// Removes the row at position `at`.
    pub fn remove_at(&mut self, at: usize) -> (r: R)
        requires
            old(self).wf(),
            at < old(self).rows@.len(),
        ensures
            final(self).wf(),
            r == old(self).rows@[at as int],
            final(self).rows@ == old(self).rows@.remove(at as int),
            final(self)@ == old(self)@.remove(R::key_of(r@)),
    {
        proof {
            by_key_remove(self.rows@, at as int);
        }
        self.rows.remove(at)
    }

    /// Removes the row under `key`, if one stands there.
    pub fn delete(&mut self, key: &str) -> (r: Option<R>)
        requires
            old(self).wf(),
        ensures
            final(self).wf(),
            final(self)@ == old(self)@.remove(key@),
            match r {
                Some(row) => old(self)@.dom().contains(key@) && row@ == old(self)@[key@] && exists|
                    at: int,
                |
                    0 <= at < old(self).rows@.len() && old(self).rows@[at] == row
                        && final(self).rows@ == #[trigger] old(self).rows@.remove(at),
                None => !old(self)@.dom().contains(key@) && *final(self) == *old(self),
            },
    {
        match self.find(key) {
            Some(at) => {
                proof {
                    by_key_remove(self.rows@, at as int);
                }
                Some(self.rows.remove(at))
            },
            None => {
                assert(self@ =~= self@.remove(key@));
                None
            },
        }
    }
}

} // verus!
