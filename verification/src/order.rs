//! A stable merge sort over anything with a total preorder.

use vstd::prelude::*;

use vstd::relations::{sorted_by, total_ordering};
use vstd::seq_lib::lemma_sorted_unique;

use crate::text::{
    less, text_le, text_lt, text_lt_irreflexive, text_lt_total, text_lt_transitive, texts,
};

verus! {

/// A type whose values can be put in order.
pub trait Ordered: Sized {
    /// `self` may stand in front of `other`.
    spec fn le(self, other: Self) -> bool;

    /// Of any two values one may stand in front of the other.
    proof fn le_total(a: Self, b: Self)
        ensures
            a.le(b) || b.le(a),
    ;

    /// The order is transitive.
    proof fn le_transitive(a: Self, b: Self, c: Self)
        requires
            a.le(b),
            b.le(c),
        ensures
            a.le(c),
    ;

    /// Whether `self` may stand in front of `other`.
    fn not_after(&self, other: &Self) -> (r: bool)
        ensures
            r == self.le(*other),
    ;
}

impl Ordered for String {
    open spec fn le(self, other: Self) -> bool {
        text_le(self@, other@)
    }

    proof fn le_total(a: Self, b: Self) {
        text_lt_total(a@, b@);
    }

    proof fn le_transitive(a: Self, b: Self, c: Self) {
        text_lt_total(a@, b@);
        text_lt_total(b@, c@);
        text_lt_irreflexive(a@);
        if text_lt(c@, a@) {
            if a@ != b@ {
                text_lt_transitive(c@, a@, b@);
            }
        }
    }

    fn not_after(&self, other: &Self) -> (r: bool) {
        !less(other.as_str(), self.as_str())
    }
}

impl Ordered for u64 {
    open spec fn le(self, other: Self) -> bool {
        self <= other
    }

    proof fn le_total(a: Self, b: Self) {
    }

    proof fn le_transitive(a: Self, b: Self, c: Self) {
    }

    fn not_after(&self, other: &Self) -> (r: bool) {
        *self <= *other
    }
}

/// Position `a` comes strictly before position `b` in the sorted order of
/// `keys`: by key, and equal keys by position.
pub open spec fn before<K: Ordered>(keys: Seq<K>, a: int, b: int) -> bool {
    &&& keys[a].le(keys[b])
    &&& keys[b].le(keys[a]) ==> a < b
}

/// `r` lists positions of `keys` in their sorted order.
pub open spec fn in_order<K: Ordered>(keys: Seq<K>, r: Seq<usize>) -> bool {
    forall|i: int, j: int|
        0 <= i < j < r.len() ==> before(keys, #[trigger] r[i] as int, #[trigger] r[j] as int)
}

/// `r` lists each position in `lo..hi` and no other.
pub open spec fn lists_range(r: Seq<usize>, lo: int, hi: int) -> bool {
    &&& r.len() == hi - lo
    &&& forall|i: int| 0 <= i < r.len() ==> lo <= #[trigger] r[i] < hi
    &&& forall|k: usize| lo <= k < hi ==> #[trigger] r.contains(k)
}

/// `r` is the sorted order of all of `keys`.
pub open spec fn sorted_positions<K: Ordered>(keys: Seq<K>, r: Seq<usize>) -> bool {
    &&& lists_range(r, 0, keys.len() as int)
    &&& in_order(keys, r)
}

fn merge<K: Ordered>(keys: &Vec<K>, a: &Vec<usize>, b: &Vec<usize>, Ghost(mid): Ghost<int>) -> (r:
    Vec<usize>)
    requires
        in_order(keys@, a@),
        in_order(keys@, b@),
        forall|i: int| 0 <= i < a@.len() ==> 0 <= #[trigger] a@[i] < mid,
        forall|i: int| 0 <= i < b@.len() ==> mid <= #[trigger] b@[i] < keys@.len(),
        mid <= keys@.len(),
        a@.len() + b@.len() <= usize::MAX,
    ensures
        in_order(keys@, r@),
        r@.len() == a@.len() + b@.len(),
        forall|i: int| 0 <= i < a@.len() ==> r@.contains(#[trigger] a@[i]),
        forall|i: int| 0 <= i < b@.len() ==> r@.contains(#[trigger] b@[i]),
        forall|i: int| 0 <= i < r@.len() ==> a@.contains(#[trigger] r@[i]) || b@.contains(r@[i]),
{
    let mut out: Vec<usize> = Vec::new();
    let mut i: usize = 0;
    let mut j: usize = 0;
    while i < a.len() || j < b.len()
        invariant
            0 <= i <= a@.len(),
            0 <= j <= b@.len(),
            a@.len() + b@.len() <= usize::MAX,
            mid <= keys@.len(),
            in_order(keys@, a@),
            in_order(keys@, b@),
            forall|x: int| 0 <= x < a@.len() ==> 0 <= #[trigger] a@[x] < mid,
            forall|x: int| 0 <= x < b@.len() ==> mid <= #[trigger] b@[x] < keys@.len(),
            out@.len() == i + j,
            in_order(keys@, out@),
            forall|x: int, y: int|
                0 <= x < out@.len() && i <= y < a@.len() ==> before(
                    keys@,
                    #[trigger] out@[x] as int,
                    #[trigger] a@[y] as int,
                ),
            forall|x: int, y: int|
                0 <= x < out@.len() && j <= y < b@.len() ==> before(
                    keys@,
                    #[trigger] out@[x] as int,
                    #[trigger] b@[y] as int,
                ),
            forall|x: int| 0 <= x < i ==> out@.contains(#[trigger] a@[x]),
            forall|x: int| 0 <= x < j ==> out@.contains(#[trigger] b@[x]),
            forall|x: int|
                0 <= x < out@.len() ==> a@.contains(#[trigger] out@[x]) || b@.contains(out@[x]),
        decreases a@.len() - i + b@.len() - j,
    {
        let ghost old_out = out@;
        if j >= b.len() || (i < a.len() && keys[a[i]].not_after(&keys[b[j]])) {
            proof {
                let ka = keys@[a@[i as int] as int];
                if j < b@.len() {
                    assert forall|y: int| j <= y < b@.len() implies before(
                        keys@,
                        a@[i as int] as int,
                        #[trigger] b@[y] as int,
                    ) by {
                        if y > j {
                            assert(before(keys@, b@[j as int] as int, b@[y] as int));
                            K::le_transitive(
                                ka,
                                keys@[b@[j as int] as int],
                                keys@[b@[y] as int],
                            );
                        }
                    }
                }
            }
            out.push(a[i]);
            i += 1;
            proof {
                assert(out@[out@.len() - 1] == a@[i - 1]);
                assert forall|x: int| 0 <= x < i implies out@.contains(#[trigger] a@[x]) by {
                    if x < i - 1 {
                        let w = choose|w: int| 0 <= w < old_out.len() && old_out[w] == a@[x];
                        assert(out@[w] == a@[x]);
                    }
                }
                assert forall|x: int| 0 <= x < j implies out@.contains(#[trigger] b@[x]) by {
                    let w = choose|w: int| 0 <= w < old_out.len() && old_out[w] == b@[x];
                    assert(out@[w] == b@[x]);
                }
                assert(a@.contains(a@[i - 1]));
            }
        } else {
            proof {
                let kb = keys@[b@[j as int] as int];
                if i < a@.len() {
                    let ka = keys@[a@[i as int] as int];
                    K::le_total(ka, kb);
                    assert forall|y: int| i <= y < a@.len() implies before(
                        keys@,
                        b@[j as int] as int,
                        #[trigger] a@[y] as int,
                    ) by {
                        let ky = keys@[a@[y] as int];
                        if y > i {
                            assert(before(keys@, a@[i as int] as int, a@[y] as int));
                            K::le_transitive(kb, ka, ky);
                            if ky.le(kb) {
                                K::le_transitive(ka, ky, kb);
                            }
                        }
                    }
                }
            }
            out.push(b[j]);
            j += 1;
            proof {
                assert(out@[out@.len() - 1] == b@[j - 1]);
                assert forall|x: int| 0 <= x < i implies out@.contains(#[trigger] a@[x]) by {
                    let w = choose|w: int| 0 <= w < old_out.len() && old_out[w] == a@[x];
                    assert(out@[w] == a@[x]);
                }
                assert forall|x: int| 0 <= x < j implies out@.contains(#[trigger] b@[x]) by {
                    if x < j - 1 {
                        let w = choose|w: int| 0 <= w < old_out.len() && old_out[w] == b@[x];
                        assert(out@[w] == b@[x]);
                    }
                }
                assert(b@.contains(b@[j - 1]));
            }
        }
    }
    out
}

fn sort_range<K: Ordered>(keys: &Vec<K>, lo: usize, hi: usize) -> (r: Vec<usize>)
    requires
        lo <= hi <= keys@.len(),
    ensures
        lists_range(r@, lo as int, hi as int),
        in_order(keys@, r@),
    decreases hi - lo,
{
    let mut out: Vec<usize> = Vec::new();
    if lo == hi {
        return out;
    }
    if hi - lo == 1 {
        out.push(lo);
        assert(out@[0] == lo);
        return out;
    }
    let mid: usize = lo + (hi - lo) / 2;
    let a = sort_range(keys, lo, mid);
    let b = sort_range(keys, mid, hi);
    let r = merge(keys, &a, &b, Ghost(mid as int));
    proof {
        assert forall|i: int| 0 <= i < r@.len() implies lo <= #[trigger] r@[i] < hi by {
            if a@.contains(r@[i]) {
            } else {
                assert(b@.contains(r@[i]));
            }
        }
        assert forall|k: usize| lo <= k < hi implies #[trigger] r@.contains(k) by {
            if k < mid {
                assert(a@.contains(k));
            } else {
                assert(b@.contains(k));
            }
        }
    }
    r
}

/// The positions of `keys` in sorted order; equal keys keep theirs.
pub fn sort_positions<K: Ordered>(keys: &Vec<K>) -> (r: Vec<usize>)
    ensures
        sorted_positions(keys@, r@),
{
    sort_range(keys, 0, keys.len())
}

/// The order of strings, as a relation.
pub open spec fn text_leq() -> spec_fn(Seq<char>, Seq<char>) -> bool {
    |a: Seq<char>, b: Seq<char>| text_le(a, b)
}

/// The strings of `s` in order.
pub open spec fn sorted_texts(s: Seq<Seq<char>>) -> Seq<Seq<char>> {
    s.sort_by(text_leq())
}

/// The order of strings is total.
pub proof fn text_leq_total()
    ensures
        total_ordering(text_leq()),
{
    let leq = text_leq();
    assert forall|a: Seq<char>| #[trigger] leq(a, a) by {
        text_lt_irreflexive(a);
    }
    assert forall|a: Seq<char>, b: Seq<char>| #[trigger] leq(a, b) && #[trigger] leq(
        b,
        a,
    ) implies a == b by {
        text_lt_total(a, b);
    }
    assert forall|a: Seq<char>, b: Seq<char>, c: Seq<char>| #[trigger] leq(a, b) && #[trigger] leq(
        b,
        c,
    ) implies leq(a, c) by {
        text_lt_total(a, b);
        text_lt_total(b, c);
        text_lt_irreflexive(a);
        if text_lt(c, a) && a != b {
            text_lt_transitive(c, a, b);
        }
    }
    assert forall|a: Seq<char>, b: Seq<char>| #[trigger] leq(a, b) || #[trigger] leq(b, a) by {
        text_lt_total(a, b);
    }
}

/// A list that is in order and holds the strings of `s` is `sorted_texts(s)`.
pub proof fn sorted_texts_unique(s: Seq<Seq<char>>, r: Seq<Seq<char>>)
    requires
        sorted_by(r, text_leq()),
        r.to_multiset() == s.to_multiset(),
    ensures
        r == sorted_texts(s),
{
    text_leq_total();
    s.lemma_sort_by_ensures(text_leq());
    lemma_sorted_unique(r, sorted_texts(s), text_leq());
}

/// The strings of `v` in order.
pub fn sort_texts(v: &Vec<String>) -> (r: Vec<String>)
    ensures
        texts(r@) == sorted_texts(texts(v@)),
{
    let mut out: Vec<String> = Vec::new();
    let mut i: usize = 0;
    proof {
        assert(texts(out@) =~= texts(v@).take(0));
        assert(sorted_by(texts(out@), text_leq()));
    }
    while i < v.len()
        invariant
            i <= v@.len(),
            sorted_by(texts(out@), text_leq()),
            texts(out@).to_multiset() == texts(v@).take(i as int).to_multiset(),
        decreases v@.len() - i,
    {
        let mut k: usize = 0;
        while k < out.len() && !less(v[i].as_str(), out[k].as_str())
            invariant
                i < v@.len(),
                k <= out@.len(),
                forall|x: int| 0 <= x < k ==> !text_lt(v@[i as int]@, (#[trigger] out@[x])@),
            decreases out@.len() - k,
        {
            k += 1;
        }
        let ghost prior = out@;
        out.insert(k, v[i].clone());
        proof {
            broadcast use vstd::seq_lib::group_to_multiset_ensures;

            let x = v@[i as int]@;
            let p = texts(prior);
            assert(texts(out@) =~= p.insert(k as int, x));
            text_leq_total();
            let leq = text_leq();
            assert forall|a: int, b: int| 0 <= a < b < out@.len() implies #[trigger] leq(
                texts(out@)[a],
                texts(out@)[b],
            ) by {
                text_lt_total(x, p[k as int]);
                if b == k {
                    assert(!text_lt(x, prior[a]@));
                } else if a == k {
                    assert(leq(x, p[k as int]));
                    if b - 1 > k {
                        assert(leq(p[k as int], p[b - 1]));
                    }
                } else if a < k && b > k {
                    assert(leq(p[a], p[b - 1]));
                } else if a > k {
                    assert(leq(p[a - 1], p[b - 1]));
                } else {
                    assert(leq(p[a], p[b]));
                }
            }
            assert(texts(v@).take(i as int + 1) =~= texts(v@).take(i as int).push(x));
        }
        i += 1;
    }
    proof {
        assert(texts(v@).take(i as int) =~= texts(v@));
        sorted_texts_unique(texts(v@), texts(out@));
    }
    out
}

/// Taking the entries of `a` in another order changes no multiset.
pub proof fn reordering_keeps_multiset<T>(a: Seq<T>, order: Seq<usize>, b: Seq<T>)
    requires
        order.no_duplicates(),
        order.len() == a.len(),
        b.len() == a.len(),
        forall|i: int| 0 <= i < order.len() ==> (#[trigger] order[i]) < a.len(),
        forall|i: int| 0 <= i < b.len() ==> #[trigger] b[i] == a[order[i] as int],
    ensures
        b.to_multiset() == a.to_multiset(),
    decreases a.len(),
{
    broadcast use vstd::seq_lib::group_to_multiset_ensures;

    if a.len() == 0 {
        assert(a =~= b);
    } else {
        let n = a.len() - 1;
        let p = order[n] as int;
        let rest = a.remove(p);
        let shifted = Seq::new(
            n as nat,
            |i: int|
                if order[i] > p {
                    (order[i] - 1) as usize
                } else {
                    order[i]
                },
        );
        assert forall|i: int, j: int| 0 <= i < n && 0 <= j < n && i != j implies shifted[i]
            != shifted[j] by {
            assert(order[i] != order[j]);
            assert(order[i] != order[n]);
            assert(order[j] != order[n]);
        }
        assert forall|i: int| 0 <= i < n implies (#[trigger] shifted[i]) < rest.len() by {
            assert(order[i] != order[n]);
            assert(order[i] < a.len());
        }
        let front = b.drop_last();
        assert forall|i: int| 0 <= i < n implies #[trigger] front[i] == rest[shifted[i] as int] by {
            assert(b[i] == a[order[i] as int]);
            assert(order[i] != order[n]);
        }
        reordering_keeps_multiset(rest, shifted, front);
        assert(b =~= front.push(b[n]));
        assert(rest.insert(p, a[p]) =~= a);
    }
}

/// A sorted order lists no position twice.
pub proof fn sorted_has_no_duplicates<K: Ordered>(keys: Seq<K>, r: Seq<usize>)
    requires
        in_order(keys, r),
    ensures
        r.no_duplicates(),
{
    assert forall|i: int, j: int| 0 <= i < r.len() && 0 <= j < r.len() && i != j implies r[i]
        != r[j] by {
        let (x, y) = if i < j { (i, j) } else { (j, i) };
        assert(before(keys, r[x] as int, r[y] as int));
        K::le_total(keys[r[x] as int], keys[r[x] as int]);
    }
}

/// Positions are put in the order of their keys, each once, and positions of equal
/// keys stay in their order.
pub proof fn sorting_is_stable<K: Ordered>(keys: Seq<K>, r: Seq<usize>, x: int, y: int)
    requires
        sorted_positions(keys, r),
        0 <= x < y < r.len(),
    ensures
        r[x] < keys.len(),
        r[x] != r[y],
        keys[r[x] as int].le(keys[r[y] as int]),
        keys[r[y] as int].le(keys[r[x] as int]) ==> r[x] < r[y],
{
    assert(before(keys, r[x] as int, r[y] as int));
    sorted_has_no_duplicates(keys, r);
}

} // verus!
