//! Queries over the catalogue for people: pages of objects, dependency trees,
//! reverse dependencies and pins.

use vstd::prelude::*;
use vstd::string::*;

use crate::db::{hash_of, hash_prefix, reference_hash, target_of, Db, DbView, PinView, Row, RowView};
use crate::number::{
    decimal_int, decimal_int_reads_back, is_digit, parse_signed, read_signed, show_signed,
};
use crate::order::{
    before, reordering_keeps_multiset, sort_positions, sorted_has_no_duplicates, Ordered,
};
use crate::table::{key_index, row_under_its_key, Keyed, Table};
use crate::text::{
    cut_at, first_of_is, less, same, split_once, text_le, text_lt, text_lt_irreflexive,
    text_lt_total, text_lt_transitive, to_chars,
};

verus! {

/// One object of a listing.
#[derive(Debug, PartialEq, Eq)]
pub struct Summary {
    /// Store path hash.
    pub hash: String,
    /// The basename after the hash.
    pub name: String,
    /// The full store path.
    pub store_path: String,
    /// Size of the uncompressed NAR in bytes.
    pub nar_size: i64,
    /// Size of the stored blob in bytes.
    pub file_size: i64,
    /// Unix time of the upload.
    pub created_at: i64,
}

/// What a [`Summary`] holds.
#[verifier::ext_equal]
pub struct SummaryView {
    /// See [`Summary::hash`].
    pub hash: Seq<char>,
    /// See [`Summary::name`].
    pub name: Seq<char>,
    /// See [`Summary::store_path`].
    pub store_path: Seq<char>,
    /// See [`Summary::nar_size`].
    pub nar_size: i64,
    /// See [`Summary::file_size`].
    pub file_size: i64,
    /// See [`Summary::created_at`].
    pub created_at: i64,
}

impl View for Summary {
    type V = SummaryView;

    open spec fn view(&self) -> SummaryView {
        SummaryView {
            hash: self.hash@,
            name: self.name@,
            store_path: self.store_path@,
            nar_size: self.nar_size,
            file_size: self.file_size,
            created_at: self.created_at,
        }
    }
}

/// What a list of summaries holds.
pub open spec fn summaries(v: Seq<Summary>) -> Seq<SummaryView> {
    v.map_values(|s: Summary| s@)
}

/// One page of a listing.
#[derive(Debug)]
pub struct Page {
    /// The objects of the page, newest first.
    pub objects: Vec<Summary>,
    /// Where the next page begins; absent on the last one.
    pub next_cursor: Option<String>,
}

/// The summary of a row.
pub open spec fn summary_of(row: RowView) -> SummaryView {
    SummaryView {
        hash: row.object.store_path_hash,
        name: row.object.name,
        store_path: row.object.store_path,
        nar_size: row.object.nar_size,
        file_size: row.object.file_size,
        created_at: row.created_at,
    }
}

fn summarize(row: &Row) -> (r: Summary)
    ensures
        r@ == summary_of(row@),
{
    Summary {
        hash: row.object.store_path_hash.clone(),
        name: row.object.name.clone(),
        store_path: row.object.store_path.clone(),
        nar_size: row.object.nar_size,
        file_size: row.object.file_size,
        created_at: row.created_at,
    }
}

fn copy_summary(s: &Summary) -> (r: Summary)
    ensures
        r@ == s@,
{
    Summary {
        hash: s.hash.clone(),
        name: s.name.clone(),
        store_path: s.store_path.clone(),
        nar_size: s.nar_size,
        file_size: s.file_size,
        created_at: s.created_at,
    }
}

/// `c` in lower case, where it is an ASCII letter.
pub open spec fn ascii_fold(c: char) -> char {
    if 'A' <= c && c <= 'Z' {
        ((c as int) + 32) as char
    } else {
        c
    }
}

/// The pattern `p` fits all of `s`: `%` stands for any characters, `_` for any
/// one, and ASCII letters for themselves in either case.
pub open spec fn like(p: Seq<char>, s: Seq<char>) -> bool
    decreases p.len(), s.len(),
{
    if p.len() == 0 {
        s.len() == 0
    } else if p[0] == '%' {
        like(p.drop_first(), s) || (s.len() > 0 && like(p, s.drop_first()))
    } else {
        &&& s.len() > 0
        &&& p[0] == '_' || ascii_fold(p[0]) == ascii_fold(s[0])
        &&& like(p.drop_first(), s.drop_first())
    }
}

/// `c` in lower case, where it is an ASCII letter.
fn fold(c: char) -> (r: u32)
    ensures
        r as int == ascii_fold(c) as int,
{
    if c >= 'A' && c <= 'Z' {
        c as u32 + 32
    } else {
        c as u32
    }
}

/// Whether two characters are the same but for the case of ASCII letters.
fn same_letter(a: char, b: char) -> (r: bool)
    ensures
        r == (ascii_fold(a) == ascii_fold(b)),
{
    fold(a) == fold(b)
}

/// Whether the pattern `p` fits all of `s`.
pub fn is_like(p: &str, s: &str) -> (r: bool)
    ensures
        r == like(p@, s@),
{
    let pattern = to_chars(p);
    let text = to_chars(s);
    let n: usize = text.len();
    // fits[j]: what is left of the pattern fits text[j..].
    let mut fits: Vec<bool> = Vec::new();
    let mut j: usize = 0;
    while j < n
        invariant
            j <= n == text@.len(),
            fits@.len() == j,
            forall|x: int| 0 <= x < j ==> !(#[trigger] fits@[x]),
        decreases n - j,
    {
        fits.push(false);
        j += 1;
    }
    fits.push(true);
    let m: usize = fits.len();
    let mut i: usize = pattern.len();
    proof {
        assert(pattern@.skip(i as int) =~= Seq::<char>::empty());
    }
    while i > 0
        invariant
            i <= pattern@.len(),
            n == text@.len(),
            m == n + 1,
            fits@.len() == m,
            forall|x: int|
                0 <= x <= n ==> #[trigger] fits@[x] == like(
                    pattern@.skip(i as int),
                    text@.skip(x),
                ),
        decreases i,
    {
        let ghost below = fits@;
        let ghost rest = pattern@.skip(i as int);
        let ghost here = pattern@.skip(i - 1);
        let c = pattern[i - 1];
        proof {
            assert(here.drop_first() =~= rest);
            assert(here[0] == c);
        }
        let mut row: Vec<bool> = Vec::new();
        let mut x: usize = 0;
        if c == '%' {
            // From the back: row[x] is below[x] or row[x + 1].
            while x < m
                invariant
                    x <= m,
                    row@.len() == x,
                decreases m - x,
            {
                row.push(false);
                x += 1;
            }
            let mut k: usize = m;
            while k > 0
                invariant
                    k <= m,
                    m == n + 1,
                    n == text@.len(),
                    row@.len() == n + 1,
                    below == fits@,
                    below.len() == n + 1,
                    here.len() > 0,
                    here[0] == '%',
                    here.drop_first() == rest,
                    forall|y: int|
                        0 <= y <= n ==> #[trigger] below[y] == like(rest, text@.skip(y)),
                    forall|y: int|
                        k <= y <= n ==> #[trigger] row@[y] == like(here, text@.skip(y)),
                decreases k,
            {
                let at: usize = k - 1;
                let ghost t = text@.skip(at as int);
                proof {
                    if at < n {
                        assert(t.drop_first() =~= text@.skip(k as int));
                    }
                }
                let fit = fits[at] || (at < n && row[k]);
                assert(fit == like(here, t));
                row[at] = fit;
                k = at;
            }
        } else {
            while x < m
                invariant
                    x <= m,
                    m == n + 1,
                    n == text@.len(),
                    row@.len() == x,
                    below == fits@,
                    below.len() == n + 1,
                    here.len() > 0,
                    here[0] == c,
                    c != '%',
                    here.drop_first() == rest,
                    forall|y: int|
                        0 <= y <= n ==> #[trigger] below[y] == like(rest, text@.skip(y)),
                    forall|y: int|
                        0 <= y < x ==> #[trigger] row@[y] == like(here, text@.skip(y)),
                decreases m - x,
            {
                let ghost t = text@.skip(x as int);
                proof {
                    if x < n {
                        assert(t.drop_first() =~= text@.skip(x + 1));
                    }
                }
                let fit = x < n && (c == '_' || same_letter(c, text[x])) && fits[x + 1];
                assert(fit == like(here, t));
                row.push(fit);
                x += 1;
            }
        }
        fits = row;
        i -= 1;
    }
    proof {
        assert(pattern@.skip(0) =~= p@);
        assert(text@.skip(0) =~= s@);
    }
    fits[0]
}

/// Where a listing goes on: behind an object of this time and hash.
#[verifier::ext_equal]
pub struct Position {
    /// The time of the object.
    pub time: i64,
    /// Its hash.
    pub hash: Seq<char>,
}

/// What a cursor stands for. Without one, and behind one that is none, the
/// listing begins at the newest.
pub open spec fn position_of(cursor: Option<Seq<char>>) -> Position {
    match cursor {
        None => Position { time: i64::MAX, hash: Seq::empty() },
        Some(c) => match cut_at(c, ':') {
            None => Position { time: i64::MAX, hash: Seq::empty() },
            Some((time, hash)) => match parse_signed(time) {
                Some(t) => Position { time: t as i64, hash },
                None => Position { time: i64::MAX, hash },
            },
        },
    }
}

/// The cursor behind the object of this time and hash.
pub open spec fn cursor_text(time: i64, hash: Seq<char>) -> Seq<char> {
    decimal_int(time as int) + ":"@ + hash
}

/// A cursor leads back to the object it was made from.
pub proof fn cursor_reads_back(time: i64, hash: Seq<char>)
    ensures
        position_of(Some(cursor_text(time, hash))) == (Position { time, hash }),
{
    reveal_strlit(":");
    let head = decimal_int(time as int);
    let c = cursor_text(time, hash);
    decimal_int_reads_back(time);
    let n = head.len() as int;
    assert(c[n] == ':');
    assert forall|k: int| 0 <= k < n implies c[k] != ':' by {
        assert(c[k] == head[k]);
        assert(head[k] == '-' || is_digit(head[k]));
    }
    first_of_is(c, ':', n);
    assert(c.take(n) =~= head);
    assert(c.skip(n + 1) =~= hash);
}

/// An object of this time and hash comes behind `at`: older, or of the same
/// time with a later hash.
pub open spec fn behind(at: Position, time: i64, hash: Seq<char>) -> bool {
    time < at.time || (time == at.time && text_lt(at.hash, hash))
}

/// The name fits the query, if there is one: the query stands somewhere in it.
pub open spec fn name_fits(query: Option<Seq<char>>, name: Seq<char>) -> bool {
    match query {
        None => true,
        Some(q) => like("%"@ + q + "%"@, name),
    }
}

impl DbView {
    /// The object under `h` belongs to the listing behind `at`.
    pub open spec fn listed(self, query: Option<Seq<char>>, at: Position, h: Seq<char>) -> bool {
        &&& self.objects.dom().contains(h)
        &&& name_fits(query, self.objects[h].object.name)
        &&& behind(at, self.objects[h].created_at, h)
    }

    /// `out` is the page of up to `limit` objects behind `at`, and `more` says
    /// whether something is left.
    pub open spec fn page(
        self,
        query: Option<Seq<char>>,
        limit: int,
        at: Position,
        out: Seq<SummaryView>,
        more: bool,
    ) -> bool {
        &&& out.len() <= limit
        &&& forall|i: int|
            0 <= i < out.len() ==> self.listed(query, at, (#[trigger] out[i]).hash) && out[i]
                == summary_of(self.objects[out[i].hash])
        &&& forall|i: int, j: int|
            0 <= i < j < out.len() ==> newer(#[trigger] out[i], #[trigger] out[j])
        &&& forall|h: Seq<char>| #[trigger]
            self.listed(query, at, h) ==> {
                ||| exists|i: int| 0 <= i < out.len() && (#[trigger] out[i]).hash == h
                ||| more && out.len() == limit && forall|i: int|
                    0 <= i < out.len() ==> newer(#[trigger] out[i], summary_of(self.objects[h]))
            }
        &&& more ==> out.len() == limit && exists|h: Seq<char>| #[trigger]
            self.listed(query, at, h) && forall|i: int|
                0 <= i < out.len() ==> (#[trigger] out[i]).hash != h
    }
}

/// `a` is listed before `b`: it is newer, or of the same time with an earlier
/// hash.
pub open spec fn newer(a: SummaryView, b: SummaryView) -> bool {
    a.created_at > b.created_at || (a.created_at == b.created_at && text_lt(a.hash, b.hash))
}

/// Where the page behind `out` begins.
pub open spec fn behind_last(out: Seq<SummaryView>) -> Position {
    Position { time: out.last().created_at, hash: out.last().hash }
}

/// A page and the one behind its last object hold nothing in common, and
/// between them skip nothing.
pub proof fn pages_neither_skip_nor_repeat(
    db: DbView,
    query: Option<Seq<char>>,
    limit: int,
    at: Position,
    first: Seq<SummaryView>,
    second: Seq<SummaryView>,
    more: bool,
    h: Seq<char>,
)
    requires
        db.rows_under_their_hash(),
        limit >= 1,
        db.page(query, limit, at, first, true),
        db.page(query, limit, behind_last(first), second, more),
        db.listed(query, at, h),
    ensures
        (exists|i: int| 0 <= i < first.len() && (#[trigger] first[i]).hash == h)
            <==> !db.listed(query, behind_last(first), h),
        (exists|j: int| 0 <= j < second.len() && (#[trigger] second[j]).hash == h)
            ==> db.listed(query, behind_last(first), h),
        (exists|i: int| 0 <= i < first.len() && (#[trigger] first[i]).hash == h) || (exists|j: int|
            0 <= j < second.len() && (#[trigger] second[j]).hash == h) || more,
{
    let last = first.last();
    let s = summary_of(db.objects[h]);
    assert(s.hash == db.objects[h].object.store_path_hash);
    let mark = behind_last(first);
    assert(first[first.len() - 1] == last);
    text_lt_irreflexive(last.hash);
    text_lt_total(last.hash, h);
    if exists|i: int| 0 <= i < first.len() && (#[trigger] first[i]).hash == h {
        let i = choose|i: int| 0 <= i < first.len() && (#[trigger] first[i]).hash == h;
        assert(first[i] == s);
        if i < first.len() - 1 {
            assert(newer(first[i], first[first.len() - 1]));
            text_lt_total(first[i].hash, last.hash);
        }
    } else {
        assert(db.listed(query, at, h));
        assert(newer(first[first.len() - 1], summary_of(db.objects[h])));
        assert(db.listed(query, mark, h));
    }
}

/// The key by which objects are listed.
struct Entry {
    summary: Summary,
}

impl Ordered for Entry {
    closed spec fn le(self, other: Self) -> bool {
        self.summary.created_at > other.summary.created_at || (self.summary.created_at
            == other.summary.created_at && text_le(self.summary.hash@, other.summary.hash@))
    }

    proof fn le_total(a: Self, b: Self) {
        text_lt_total(a.summary.hash@, b.summary.hash@);
    }

    proof fn le_transitive(a: Self, b: Self, c: Self) {
        let x = a.summary.hash@;
        let y = b.summary.hash@;
        let z = c.summary.hash@;
        text_lt_total(x, y);
        text_lt_total(y, z);
        text_lt_irreflexive(x);
        if text_lt(z, x) && x != y && !text_lt(y, x) {
            text_lt_transitive(z, x, y);
        }
    }

    fn not_after(&self, other: &Self) -> (r: bool) {
        self.summary.created_at > other.summary.created_at || (self.summary.created_at
            == other.summary.created_at && !less(
            other.summary.hash.as_str(),
            self.summary.hash.as_str(),
        ))
    }
}

/// Where a listing with this cursor begins.
fn read_cursor(cursor: Option<&str>) -> (r: (i64, String))
    ensures
        (Position { time: r.0, hash: r.1@ }) == position_of(crate::text::opt_str(cursor)),
{
    match cursor {
        None => (i64::MAX, String::new()),
        Some(c) => match split_once(c, ':') {
            None => (i64::MAX, String::new()),
            Some((time, hash)) => match read_signed(time) {
                Some(t) => (t, hash.to_owned()),
                None => (i64::MAX, hash.to_owned()),
            },
        },
    }
}

/// Every object that belongs to the listing, in the order of the hashes.
fn listing(db: &Db, query: Option<&str>, time: i64, hash: &str) -> (r: Vec<Entry>)
    requires
        db.wf(),
    ensures
        forall|k: int|
            0 <= k < r@.len() ==> db@.listed(
                crate::text::opt_str(query),
                (Position { time, hash: hash@ }),
                (#[trigger] r@[k]).summary.hash@,
            ) && r@[k].summary@ == summary_of(db@.objects[r@[k].summary.hash@]),
        forall|h: Seq<char>| #[trigger]
            db@.listed(crate::text::opt_str(query), (Position { time, hash: hash@ }), h)
                ==> exists|k: int| 0 <= k < r@.len() && (#[trigger] r@[k]).summary.hash@ == h,
        forall|a: int, b: int|
            0 <= a < b < r@.len() ==> text_lt(
                (#[trigger] r@[a]).summary.hash@,
                (#[trigger] r@[b]).summary.hash@,
            ),
{
    let ghost rows = db.objects.rows@;
    let ghost q = crate::text::opt_str(query);
    let ghost at = Position { time, hash: hash@ };
    let pattern: Option<String> = match query {
        None => None,
        Some(text) => Some("%".to_owned().concat(text).concat("%")),
    };
    let mut out: Vec<Entry> = Vec::new();
    let mut i: usize = 0;
    while i < db.objects.rows.len()
        invariant
            db.wf(),
            rows == db.objects.rows@,
            at == (Position { time, hash: hash@ }),
            q == crate::text::opt_str(query),
            match pattern {
                None => q is None,
                Some(p) => q is Some && p@ == "%"@ + q->0 + "%"@,
            },
            i <= rows.len(),
            forall|k: int|
                0 <= k < out@.len() ==> db@.listed(q, at, (#[trigger] out@[k]).summary.hash@)
                    && out@[k].summary@ == summary_of(db@.objects[out@[k].summary.hash@]),
            forall|x: int|
                0 <= x < i && db@.listed(q, at, (#[trigger] rows[x]).object.store_path_hash@)
                    ==> exists|k: int|
                    0 <= k < out@.len() && (#[trigger] out@[k]).summary.hash@
                        == rows[x].object.store_path_hash@,
            forall|a: int, b: int|
                0 <= a < b < out@.len() ==> text_lt(
                    (#[trigger] out@[a]).summary.hash@,
                    (#[trigger] out@[b]).summary.hash@,
                ),
            forall|k: int, x: int|
                0 <= k < out@.len() && i <= x < rows.len() ==> text_lt(
                    (#[trigger] out@[k]).summary.hash@,
                    (#[trigger] rows[x]).object.store_path_hash@,
                ),
        decreases rows.len() - i,
    {
        let row = &db.objects.rows[i];
        let ghost prior = out@;
        proof {
            row_under_its_key(rows, i as int);
            assert forall|x: int| i < x < rows.len() implies text_lt(
                row.object.store_path_hash@,
                (#[trigger] rows[x]).object.store_path_hash@,
            ) by {
                assert(text_lt(Row::key_of(rows[i as int]@), Row::key_of(rows[x]@)));
            }
        }
        let fits = match &pattern {
            None => true,
            Some(p) => is_like(p.as_str(), row.object.name.as_str()),
        };
        let later = row.created_at < time || (row.created_at == time && less(
            hash,
            row.object.store_path_hash.as_str(),
        ));
        if fits && later {
            out.push(Entry { summary: summarize(row) });
        }
        i += 1;
        proof {
            assert forall|x: int|
                0 <= x < i && db@.listed(
                    q,
                    at,
                    (#[trigger] rows[x]).object.store_path_hash@,
                ) implies exists|k: int|
                0 <= k < out@.len() && (#[trigger] out@[k]).summary.hash@
                    == rows[x].object.store_path_hash@ by {
                if x < i - 1 {
                    let k = choose|k: int|
                        0 <= k < prior.len() && (#[trigger] prior[k]).summary.hash@
                            == rows[x].object.store_path_hash@;
                    assert(out@[k].summary.hash@ == rows[x].object.store_path_hash@);
                } else {
                    assert(out@[out@.len() - 1].summary.hash@ == rows[x].object.store_path_hash@);
                }
            }
        }
    }
    proof {
        assert forall|h: Seq<char>| #[trigger] db@.listed(q, at, h) implies exists|k: int|
            0 <= k < out@.len() && (#[trigger] out@[k]).summary.hash@ == h by {
            let x = key_index(rows, h);
            row_under_its_key(rows, x);
            assert(rows[x].object.store_path_hash@ == h);
        }
    }
    out
}

/// One page of objects, newest first, with those that came at one time in the
/// order of their hashes. The cursor names the last object of the page, so
/// that objects pushed meanwhile make the walk neither skip nor repeat.
pub fn list(db: &Db, query: Option<&str>, limit: usize, cursor: Option<&str>) -> (r: Page)
    requires
        db.wf(),
    ensures
        ({
            let size = if limit < 1 {
                1int
            } else if limit > 500 {
                500int
            } else {
                limit as int
            };
            &&& db@.page(
                crate::text::opt_str(query),
                size,
                position_of(crate::text::opt_str(cursor)),
                summaries(r.objects@),
                r.next_cursor is Some,
            )
            &&& r.next_cursor matches Some(c) ==> r.objects@.len() > 0 && c@ == cursor_text(
                r.objects@.last().created_at,
                r.objects@.last().hash@,
            )
        }),
{
    let size: usize = if limit < 1 {
        1
    } else if limit > 500 {
        500
    } else {
        limit
    };
    let (time, hash) = read_cursor(cursor);
    let ghost q = crate::text::opt_str(query);
    let ghost at = position_of(crate::text::opt_str(cursor));
    let keys = listing(db, query, time, hash.as_str());
    let order = sort_positions(&keys);
    let more = order.len() > size;
    let count: usize = if more {
        size
    } else {
        order.len()
    };
    let mut objects: Vec<Summary> = Vec::new();
    let mut j: usize = 0;
    while j < count
        invariant
            j <= count <= order@.len(),
            order@.len() == keys@.len(),
            forall|x: int| 0 <= x < order@.len() ==> 0 <= #[trigger] order@[x] < keys@.len(),
            objects@.len() == j,
            forall|x: int|
                0 <= x < j ==> (#[trigger] objects@[x])@ == keys@[order@[x] as int].summary@,
        decreases count - j,
    {
        objects.push(copy_summary(&keys[order[j]].summary));
        j += 1;
    }
    proof {
        let out = summaries(objects@);
        assert forall|x: int, y: int| 0 <= x < y < order@.len() implies newer(
            keys@[(#[trigger] order@[x]) as int].summary@,
            keys@[(#[trigger] order@[y]) as int].summary@,
        ) by {
            let a = order@[x] as int;
            let b = order@[y] as int;
            assert(before(keys@, a, b));
            text_lt_total(keys@[a].summary.hash@, keys@[b].summary.hash@);
            text_lt_irreflexive(keys@[a].summary.hash@);
            if a < b {
                assert(text_lt(keys@[a].summary.hash@, keys@[b].summary.hash@));
            } else if b < a {
                assert(text_lt(keys@[b].summary.hash@, keys@[a].summary.hash@));
            }
        }
        assert forall|x: int| 0 <= x < out.len() implies db@.listed(
            q,
            at,
            (#[trigger] out[x]).hash,
        ) && out[x] == summary_of(db@.objects[out[x].hash]) by {
            assert(objects@[x]@ == keys@[order@[x] as int].summary@);
        }
        assert forall|x: int, y: int| 0 <= x < y < out.len() implies newer(
            #[trigger] out[x],
            #[trigger] out[y],
        ) by {
            assert(objects@[x]@ == keys@[order@[x] as int].summary@);
            assert(objects@[y]@ == keys@[order@[y] as int].summary@);
        }
        assert forall|h: Seq<char>| #[trigger] db@.listed(q, at, h) implies ({
            ||| exists|i: int| 0 <= i < out.len() && (#[trigger] out[i]).hash == h
            ||| more && out.len() == size && forall|i: int|
                0 <= i < out.len() ==> newer(#[trigger] out[i], summary_of(db@.objects[h]))
        }) by {
            let k = choose|k: int| 0 <= k < keys@.len() && (#[trigger] keys@[k]).summary.hash@ == h;
            assert(order@.contains(k as usize));
            let p = choose|p: int| 0 <= p < order@.len() && order@[p] == k as usize;
            if p < count {
                assert(objects@[p]@ == keys@[order@[p] as int].summary@);
                assert(out[p].hash == h);
            } else {
                assert forall|i: int| 0 <= i < out.len() implies newer(
                    #[trigger] out[i],
                    summary_of(db@.objects[h]),
                ) by {
                    assert(objects@[i]@ == keys@[order@[i] as int].summary@);
                    assert(order@[p] as int == k);
                }
            }
        }
        if more {
            let h = keys@[order@[count as int] as int].summary.hash@;
            assert(db@.listed(q, at, h));
            assert forall|i: int| 0 <= i < out.len() implies (#[trigger] out[i]).hash != h by {
                assert(objects@[i]@ == keys@[order@[i] as int].summary@);
                let a = order@[i] as int;
                let b = order@[count as int] as int;
                assert(newer(keys@[a].summary@, keys@[b].summary@));
                text_lt_irreflexive(h);
            }
        }
    }
    let next_cursor: Option<String> = if more {
        let last = &objects[objects.len() - 1];
        Some(show_signed(last.created_at).concat(":").concat(last.hash.as_str()))
    } else {
        None
    };
    Page { objects, next_cursor }
}

/// One pin of a listing.
#[derive(Debug, PartialEq, Eq)]
pub struct Pin {
    /// The operator's name for it.
    pub name: String,
    /// Store path hash of the pinned object.
    pub store_path_hash: String,
    /// Its full store path.
    pub store_path: String,
    /// Unix time from which it protects nothing; `None` is never.
    pub expires_at: Option<i64>,
    /// Unix time at which it was set.
    pub created_at: i64,
}

/// `p` tells of the pin that holds `v` in `db`.
pub open spec fn pin_listed(p: Pin, v: PinView, db: DbView) -> bool {
    &&& p.name@ == v.name
    &&& p.store_path_hash@ == v.store_path_hash
    &&& p.store_path@ == db.objects[v.store_path_hash].object.store_path
    &&& p.expires_at == v.expires_at
    &&& p.created_at == v.created_at
}

/// All pins by name, those that have expired as well: the listing answers why
/// something was evicted.
pub fn pins(db: &Db) -> (r: Vec<Pin>)
    requires
        db.wf(),
    ensures
        forall|i: int|
            0 <= i < r@.len() ==> db@.pins.dom().contains((#[trigger] r@[i]).name@) && pin_listed(
                r@[i],
                db@.pins[r@[i].name@],
                db@,
            ),
        forall|n: Seq<char>| #[trigger]
            db@.pins.dom().contains(n) ==> exists|i: int|
                0 <= i < r@.len() && (#[trigger] r@[i]).name@ == n,
        forall|i: int, j: int|
            0 <= i < j < r@.len() ==> text_lt((#[trigger] r@[i]).name@, (#[trigger] r@[j]).name@),
{
    let mut out: Vec<Pin> = Vec::new();
    let mut i: usize = 0;
    let ghost rows = db.pins.rows@;
    while i < db.pins.rows.len()
        invariant
            db.wf(),
            rows == db.pins.rows@,
            i <= rows.len(),
            out@.len() == i,
            forall|k: int| 0 <= k < i ==> pin_listed(#[trigger] out@[k], rows[k]@, db@),
        decreases rows.len() - i,
    {
        let pin = &db.pins.rows[i];
        proof {
            row_under_its_key(rows, i as int);
        }
        let store_path = match db.objects.get(pin.store_path_hash.as_str()) {
            Some(row) => row.object.store_path.clone(),
            None => String::new(),
        };
        out.push(
            Pin {
                name: pin.name.clone(),
                store_path_hash: pin.store_path_hash.clone(),
                store_path,
                expires_at: pin.expires_at,
                created_at: pin.created_at,
            },
        );
        i += 1;
    }
    proof {
        assert forall|k: int| 0 <= k < out@.len() implies db@.pins.dom().contains(
            (#[trigger] out@[k]).name@,
        ) && pin_listed(out@[k], db@.pins[out@[k].name@], db@) by {
            row_under_its_key(rows, k);
        }
        assert forall|n: Seq<char>| #[trigger] db@.pins.dom().contains(n) implies exists|k: int|
            0 <= k < out@.len() && (#[trigger] out@[k]).name@ == n by {
            let k = key_index(rows, n);
            assert(out@[k].name@ == n);
        }
        assert forall|a: int, b: int| 0 <= a < b < out@.len() implies text_lt(
            (#[trigger] out@[a]).name@,
            (#[trigger] out@[b]).name@,
        ) by {
            assert(text_lt(
                crate::db::PinRow::key_of(rows[a]@),
                crate::db::PinRow::key_of(rows[b]@),
            ));
        }
    }
    out
}

/// The key by which reverse dependencies are listed.
struct Named {
    summary: Summary,
}

impl Ordered for Named {
    closed spec fn le(self, other: Self) -> bool {
        text_le(self.summary.name@, other.summary.name@)
    }

    proof fn le_total(a: Self, b: Self) {
        text_lt_total(a.summary.name@, b.summary.name@);
    }

    proof fn le_transitive(a: Self, b: Self, c: Self) {
        let x = a.summary.name@;
        let y = b.summary.name@;
        let z = c.summary.name@;
        text_lt_total(x, y);
        text_lt_total(y, z);
        text_lt_irreflexive(x);
        if text_lt(z, x) && x != y {
            text_lt_transitive(z, x, y);
        }
    }

    fn not_after(&self, other: &Self) -> (r: bool) {
        !less(other.summary.name.as_str(), self.summary.name.as_str())
    }
}

/// The summary of a row, once for each of its first `n` references that points
/// to `h`; none for `h` itself.
pub open spec fn times_referring(row: RowView, h: Seq<char>, n: int) -> Seq<SummaryView>
    decreases n,
{
    if n <= 0 || row.object.store_path_hash == h {
        Seq::empty()
    } else if reference_hash(row.object.references[n - 1]) == h {
        times_referring(row, h, n - 1).push(summary_of(row))
    } else {
        times_referring(row, h, n - 1)
    }
}

/// The rows that refer to `h`, in the order of `rows`, once for each reference.
pub open spec fn referring(rows: Seq<Row>, h: Seq<char>) -> Seq<SummaryView>
    decreases rows.len(),
{
    if rows.len() == 0 {
        Seq::empty()
    } else {
        let row = rows.last()@;
        referring(rows.drop_last(), h) + times_referring(
            row,
            h,
            row.object.references.len() as int,
        )
    }
}

/// The summaries of a list of candidates.
spec fn named(v: Seq<Named>) -> Seq<SummaryView> {
    v.map_values(|n: Named| n.summary@)
}

/// The objects that refer to `hash`, by name; itself left out.
pub fn referrers(db: &Db, hash: &str) -> (r: Vec<Summary>)
    requires
        db.wf(),
    ensures
        summaries(r@).to_multiset() == referring(db.objects.rows@, hash@).to_multiset(),
        forall|i: int, j: int|
            0 <= i < j < r@.len() ==> text_le((#[trigger] r@[i]).name@, (#[trigger] r@[j]).name@),
{
    let mut keys: Vec<Named> = Vec::new();
    let mut i: usize = 0;
    let ghost rows = db.objects.rows@;
    proof {
        assert(rows.take(0) =~= Seq::<Row>::empty());
        assert(named(keys@) =~= referring(rows.take(0), hash@));
    }
    while i < db.objects.rows.len()
        invariant
            rows == db.objects.rows@,
            i <= rows.len(),
            named(keys@) == referring(rows.take(i as int), hash@),
        decreases rows.len() - i,
    {
        let row = &db.objects.rows[i];
        let ghost before_row = named(keys@);
        if !same(row.object.store_path_hash.as_str(), hash) {
            let mut k: usize = 0;
            assert(named(keys@) =~= before_row + times_referring(row@, hash@, 0));
            while k < row.object.references.len()
                invariant
                    *row == rows[i as int],
                    row.object.store_path_hash@ != hash@,
                    k <= row.object.references@.len(),
                    named(keys@) == before_row + times_referring(row@, hash@, k as int),
                decreases row.object.references@.len() - k,
            {
                let target = target_of(row.object.references[k].as_str());
                let ghost prior = keys@;
                assert(row@.object.references[k as int] == row.object.references@[k as int]@);
                if same(target.as_str(), hash) {
                    keys.push(Named { summary: summarize(row) });
                    assert(named(keys@) =~= named(prior).push(summary_of(row@)));
                }
                k += 1;
                assert(named(keys@) =~= before_row + times_referring(row@, hash@, k as int));
            }
        } else {
            assert(named(keys@) =~= before_row + times_referring(
                row@,
                hash@,
                row@.object.references.len() as int,
            ));
        }
        i += 1;
        proof {
            assert(rows.take(i as int).drop_last() =~= rows.take(i - 1));
            assert(rows.take(i as int).last() == rows[i - 1]);
        }
    }
    assert(rows.take(i as int) =~= rows);
    let order = sort_positions(&keys);
    let mut out: Vec<Summary> = Vec::new();
    let mut j: usize = 0;
    while j < order.len()
        invariant
            j <= order@.len(),
            order@.len() == keys@.len(),
            forall|x: int| 0 <= x < order@.len() ==> 0 <= #[trigger] order@[x] < keys@.len(),
            out@.len() == j,
            forall|x: int|
                0 <= x < j ==> (#[trigger] out@[x])@ == keys@[order@[x] as int].summary@,
        decreases order@.len() - j,
    {
        out.push(copy_summary(&keys[order[j]].summary));
        j += 1;
    }
    proof {
        sorted_has_no_duplicates(keys@, order@);
        let a = named(keys@);
        let b = summaries(out@);
        assert forall|x: int| 0 <= x < b.len() implies #[trigger] b[x] == a[order@[x] as int] by {
            assert(out@[x]@ == keys@[order@[x] as int].summary@);
        }
        reordering_keeps_multiset(a, order@, b);
        assert forall|x: int, y: int| 0 <= x < y < out@.len() implies text_le(
            (#[trigger] out@[x]).name@,
            (#[trigger] out@[y]).name@,
        ) by {
            assert(out@[x]@ == keys@[order@[x] as int].summary@);
            assert(out@[y]@ == keys@[order@[y] as int].summary@);
            assert(before(keys@, order@[x] as int, order@[y] as int));
        }
    }
    out
}

/// The reverse dependencies of an object are exactly the others that refer to
/// it.
pub proof fn referrers_reverse_references(db: &Db, h: Seq<char>, a: Seq<char>)
    requires
        db.wf(),
    ensures
        (a != h && db@.refers(a, h)) <==> (db@.objects.dom().contains(a) && referring(
            db.objects.rows@,
            h,
        ).contains(summary_of(db@.objects[a]))),
{
    let rows = db.objects.rows@;
    crate::db::rows_stand_under_their_hash(db);
    if db@.objects.dom().contains(a) {
        let i = key_index(rows, a);
        row_under_its_key(rows, i);
        let row = rows[i]@;
        let s = summary_of(row);
        let n = row.object.references.len() as int;
        if a != h && db@.refers(a, h) {
            let k = choose|k: int|
                0 <= k < db@.objects[a].object.references.len() && reference_hash(
                    #[trigger] db@.objects[a].object.references[k],
                ) == h;
            times_referring_has(row, h, n, k);
            referring_has(rows, h, i, s);
        }
        if referring(rows, h).contains(s) {
            let j = referring_from(rows, h, s);
            row_under_its_key(rows, j);
            assert(j == i);
            let k = times_referring_from(rows[j]@, h, rows[j]@.object.references.len() as int, s);
            assert(reference_hash(db@.objects[a].object.references[k]) == h);
        }
    }
}

proof fn times_referring_has(row: RowView, h: Seq<char>, n: int, k: int)
    requires
        0 <= k < n <= row.object.references.len(),
        row.object.store_path_hash != h,
        reference_hash(row.object.references[k]) == h,
    ensures
        times_referring(row, h, n).contains(summary_of(row)),
    decreases n,
{
    let all = times_referring(row, h, n);
    if k == n - 1 {
        assert(all[all.len() - 1] == summary_of(row));
    } else {
        times_referring_has(row, h, n - 1, k);
        let front = times_referring(row, h, n - 1);
        let w = front.index_of(summary_of(row));
        assert(all[w] == front[w]);
    }
}

proof fn times_referring_from(row: RowView, h: Seq<char>, n: int, s: SummaryView) -> (k: int)
    requires
        0 <= n <= row.object.references.len(),
        times_referring(row, h, n).contains(s),
    ensures
        0 <= k < n,
        s == summary_of(row),
        row.object.store_path_hash != h,
        reference_hash(row.object.references[k]) == h,
    decreases n,
{
    let all = times_referring(row, h, n);
    assert(n > 0);
    let w = all.index_of(s);
    if reference_hash(row.object.references[n - 1]) == h {
        if w < all.len() - 1 {
            assert(times_referring(row, h, n - 1)[w] == s);
            let _ = times_referring_from(row, h, n - 1, s);
        }
        n - 1
    } else {
        times_referring_from(row, h, n - 1, s)
    }
}

proof fn referring_has(rows: Seq<Row>, h: Seq<char>, i: int, s: SummaryView)
    requires
        0 <= i < rows.len(),
        times_referring(rows[i]@, h, rows[i]@.object.references.len() as int).contains(s),
    ensures
        referring(rows, h).contains(s),
    decreases rows.len(),
{
    let row = rows.last()@;
    let front = referring(rows.drop_last(), h);
    let own = times_referring(row, h, row.object.references.len() as int);
    if i == rows.len() - 1 {
        let w = own.index_of(s);
        assert((front + own)[front.len() + w] == s);
    } else {
        assert(rows.drop_last()[i] == rows[i]);
        referring_has(rows.drop_last(), h, i, s);
        let w = front.index_of(s);
        assert((front + own)[w] == s);
    }
}

proof fn referring_from(rows: Seq<Row>, h: Seq<char>, s: SummaryView) -> (i: int)
    requires
        referring(rows, h).contains(s),
    ensures
        0 <= i < rows.len(),
        times_referring(rows[i]@, h, rows[i]@.object.references.len() as int).contains(s),
        s == summary_of(rows[i]@),
    decreases rows.len(),
{
    assert(rows.len() > 0);
    let row = rows.last()@;
    let front = referring(rows.drop_last(), h);
    let own = times_referring(row, h, row.object.references.len() as int);
    let w = referring(rows, h).index_of(s);
    if w < front.len() {
        assert(front[w] == s);
        let i = referring_from(rows.drop_last(), h, s);
        assert(rows.drop_last()[i] == rows[i]);
        i
    } else {
        assert(own[w - front.len()] == s);
        let _ = times_referring_from(row, h, row.object.references.len() as int, s);
        rows.len() - 1
    }
}

/// One node of a dependency tree.
#[derive(Debug, PartialEq, Eq)]
pub struct TreeNode {
    /// Store path hash.
    pub hash: String,
    /// The reference's basename; at the root the object's name.
    pub name: String,
    /// The cache does not hold it.
    pub missing: bool,
    /// It came up before in this tree, so its children are left out.
    pub truncated: bool,
    /// What it refers to; empty where it is missing or truncated.
    pub children: Vec<TreeNode>,
}

/// What a [`TreeNode`] holds.
pub struct NodeView {
    /// See [`TreeNode::hash`].
    pub hash: Seq<char>,
    /// See [`TreeNode::name`].
    pub name: Seq<char>,
    /// See [`TreeNode::missing`].
    pub missing: bool,
    /// See [`TreeNode::truncated`].
    pub truncated: bool,
    /// See [`TreeNode::children`].
    pub children: Seq<NodeView>,
}

/// What a node holds.
pub open spec fn node_view(n: TreeNode) -> NodeView
    decreases n,
{
    NodeView {
        hash: n.hash@,
        name: n.name@,
        missing: n.missing,
        truncated: n.truncated,
        children: nodes_view(n.children@),
    }
}

/// What a list of nodes holds.
pub open spec fn nodes_view(v: Seq<TreeNode>) -> Seq<NodeView>
    decreases v,
{
    if v.len() == 0 {
        Seq::empty()
    } else {
        nodes_view(v.drop_last()).push(node_view(v.last()))
    }
}

/// The nodes for the first `n` of the `references` of `own`, and the hashes that
/// have come up after them: a hash expands where it first comes up, down to
/// `depth` levels, a reference of an object to itself is skipped, and one that
/// the cache does not hold is shown as missing.
pub open spec fn expand(
    db: DbView,
    own: Seq<char>,
    references: Seq<Seq<char>>,
    n: nat,
    seen: Set<Seq<char>>,
    depth: nat,
) -> (Seq<NodeView>, Set<Seq<char>>)
    decreases depth, n,
{
    if n == 0 || depth == 0 {
        (Seq::empty(), seen)
    } else {
        let (nodes, so_far) = expand(db, own, references, (n - 1) as nat, seen, depth);
        let name = references[n - 1];
        let hash = hash_prefix(name);
        let truncated = so_far.contains(hash);
        let missing = !db.objects.dom().contains(hash);
        let (children, after) = if truncated || missing {
            (Seq::empty(), so_far.insert(hash))
        } else {
            let inner = db.objects[hash].object.references;
            expand(db, hash, inner, inner.len(), so_far.insert(hash), (depth - 1) as nat)
        };
        if hash == own {
            (nodes, so_far)
        } else {
            (nodes.push(NodeView { hash, name, missing, truncated, children }), after)
        }
    }
}

/// The nodes for what the object under `hash` refers to.
fn children_of(db: &Db, hash: &str, seen: &mut Table<String>, depth: usize) -> (r: Vec<TreeNode>)
    requires
        db.wf(),
        old(seen).wf(),
        db@.objects.dom().contains(hash@),
    ensures
        final(seen).wf(),
        ({
            let references = db@.objects[hash@].object.references;
            let expected = expand(
                db@,
                hash@,
                references,
                references.len(),
                old(seen)@.dom(),
                depth as nat,
            );
            &&& nodes_view(r@) == expected.0
            &&& final(seen)@.dom() == expected.1
        }),
    decreases depth,
{
    let mut out: Vec<TreeNode> = Vec::new();
    if depth == 0 {
        return out;
    }
    match db.objects.get(hash) {
        None => {},
        Some(row) => {
            let ghost references = row@.object.references;
            let mut i: usize = 0;
            while i < row.object.references.len()
                invariant
                    db.wf(),
                    seen.wf(),
                    depth > 0,
                    references == row@.object.references,
                    references.len() == row.object.references@.len(),
                    i <= references.len(),
                    nodes_view(out@) == expand(
                        db@,
                        hash@,
                        references,
                        i as nat,
                        old(seen)@.dom(),
                        depth as nat,
                    ).0,
                    seen@.dom() == expand(
                        db@,
                        hash@,
                        references,
                        i as nat,
                        old(seen)@.dom(),
                        depth as nat,
                    ).1,
                decreases references.len() - i,
            {
                let reference = &row.object.references[i];
                assert(references[i as int] == reference@);
                let child = hash_of(reference.as_str());
                i += 1;
                if same(child, hash) {
                    continue;
                }
                let ghost so_far = seen@.dom();
                let truncated = seen.has(child);
                seen.put(child.to_owned());
                assert(seen@.dom() =~= so_far.insert(child@));
                let missing = !db.objects.has(child);
                let children = if truncated || missing {
                    Vec::new()
                } else {
                    children_of(db, child, seen, depth - 1)
                };
                let ghost prior = out@;
                let node = TreeNode {
                    hash: child.to_owned(),
                    name: reference.clone(),
                    missing,
                    truncated,
                    children,
                };
                out.push(node);
                proof {
                    assert(out@.drop_last() =~= prior);
                    assert(out@.last() == node);
                    assert(nodes_view(out@) == nodes_view(prior).push(node_view(node)));
                    let inner = db@.objects[child@].object.references;
                    let kids = if truncated || missing {
                        Seq::<NodeView>::empty()
                    } else {
                        expand(
                            db@,
                            child@,
                            inner,
                            inner.len(),
                            so_far.insert(child@),
                            (depth - 1) as nat,
                        ).0
                    };
                    assert(nodes_view(node.children@) == kids);
                    assert(node_view(node) == (NodeView {
                        hash: child@,
                        name: reference@,
                        missing,
                        truncated,
                        children: kids,
                    }));
                }
            }
        },
    }
    out
}

/// The dependency tree of an object: what comes up first expands, repeats are
/// cut, references of an object to itself are skipped, and references that the
/// cache does not hold are shown and marked.
pub fn tree(db: &Db, hash: &str, depth_limit: usize) -> (r: Option<TreeNode>)
    requires
        db.wf(),
    ensures
        match r {
            None => !db@.objects.dom().contains(hash@),
            Some(node) => {
                let references = db@.objects[hash@].object.references;
                &&& db@.objects.dom().contains(hash@)
                &&& node_view(node) == (NodeView {
                    hash: hash@,
                    name: db@.objects[hash@].object.name,
                    missing: false,
                    truncated: false,
                    children: expand(
                        db@,
                        hash@,
                        references,
                        references.len(),
                        Set::<Seq<char>>::empty().insert(hash@),
                        depth_limit as nat,
                    ).0,
                })
            },
        },
{
    match db.objects.get(hash) {
        None => None,
        Some(row) => {
            let name = row.object.name.clone();
            let mut seen: Table<String> = Table::new();
            seen.put(hash.to_owned());
            assert(seen@.dom() =~= Set::<Seq<char>>::empty().insert(hash@));
            let children = children_of(db, hash, &mut seen, depth_limit);
            Some(
                TreeNode { hash: hash.to_owned(), name, missing: false, truncated: false, children },
            )
        },
    }
}

/// How often a node for `h` that is not cut comes up in `nodes` and below them.
pub open spec fn times_whole(nodes: Seq<NodeView>, h: Seq<char>) -> nat
    decreases nodes,
{
    if nodes.len() == 0 {
        0
    } else {
        times_whole(nodes.drop_last(), h) + node_whole(nodes.last(), h)
    }
}

/// How often a node for `h` that is not cut comes up in the tree of `node`.
pub open spec fn node_whole(node: NodeView, h: Seq<char>) -> nat
    decreases node,
{
    times_whole(node.children, h) + if node.hash == h && !node.truncated {
        1nat
    } else {
        0
    }
}

proof fn expanding_shows_once(
    db: DbView,
    own: Seq<char>,
    references: Seq<Seq<char>>,
    n: nat,
    seen: Set<Seq<char>>,
    depth: nat,
    h: Seq<char>,
)
    ensures
        ({
            let (nodes, after) = expand(db, own, references, n, seen, depth);
            &&& seen.contains(h) ==> times_whole(nodes, h) == 0 && after.contains(h)
            &&& times_whole(nodes, h) <= 1
            &&& times_whole(nodes, h) == 1 ==> after.contains(h)
        }),
    decreases depth, n,
{
    if n > 0 && depth > 0 {
        expanding_shows_once(db, own, references, (n - 1) as nat, seen, depth, h);
        let (nodes, so_far) = expand(db, own, references, (n - 1) as nat, seen, depth);
        let hash = hash_prefix(references[n - 1]);
        if hash != own {
            let (all, after) = expand(db, own, references, n, seen, depth);
            let node = all.last();
            reveal_with_fuel(times_whole, 2);
            reveal_with_fuel(node_whole, 2);
            assert(all.drop_last() =~= nodes);
            assert(times_whole(all, h) == times_whole(nodes, h) + node_whole(node, h));
            if so_far.contains(hash) || !db.objects.dom().contains(hash) {
                assert(node.children.len() == 0);
            } else {
                let inner = db.objects[hash].object.references;
                expanding_shows_once(
                    db,
                    hash,
                    inner,
                    inner.len(),
                    so_far.insert(hash),
                    (depth - 1) as nat,
                    h,
                );
            }
        }
    }
}

/// In a dependency tree no hash comes up twice in full: the second time it is
/// cut. So no cycle makes a tree endless, and none grows beyond its objects.
pub proof fn trees_show_each_hash_once(db: DbView, hash: Seq<char>, depth: nat, h: Seq<char>)
    ensures
        ({
            let references = db.objects[hash].object.references;
            let children = expand(
                db,
                hash,
                references,
                references.len(),
                Set::<Seq<char>>::empty().insert(hash),
                depth,
            ).0;
            &&& times_whole(children, h) <= 1
            &&& times_whole(children, hash) == 0
        }),
{
    let references = db.objects[hash].object.references;
    let seen = Set::<Seq<char>>::empty().insert(hash);
    expanding_shows_once(db, hash, references, references.len(), seen, depth, h);
    expanding_shows_once(db, hash, references, references.len(), seen, depth, hash);
}

/// `a` and `b` are the same, but perhaps for the case of a letter of ASCII.
pub open spec fn same_but_for_case(a: char, b: char) -> bool {
    ||| a == b
    ||| 'A' <= a <= 'Z' && b as int == a as int + 32
    ||| 'A' <= b <= 'Z' && a as int == b as int + 32
}

proof fn folding(a: char, b: char)
    ensures
        ascii_fold(a) == ascii_fold(b) <==> same_but_for_case(a, b),
{
}

/// `q` stands at the front of `s`, but for case.
pub open spec fn begins_with(s: Seq<char>, q: Seq<char>) -> bool {
    q.len() <= s.len() && forall|k: int|
        0 <= k < q.len() ==> same_but_for_case(#[trigger] q[k], s[k])
}

proof fn rest_fits(p: Seq<char>, s: Seq<char>)
    requires
        p == seq!['%'],
    ensures
        like(p, s),
    decreases s.len(),
{
    if s.len() == 0 {
        assert(p.drop_first().len() == 0);
        assert(like(p.drop_first(), s));
    } else {
        rest_fits(p, s.drop_first());
    }
}

proof fn front_fits(q: Seq<char>, s: Seq<char>)
    requires
        forall|k: int| 0 <= k < q.len() ==> #[trigger] q[k] != '%' && q[k] != '_',
    ensures
        like(q + seq!['%'], s) <==> begins_with(s, q),
    decreases q.len(),
{
    let p = q + seq!['%'];
    if q.len() == 0 {
        assert(p =~= seq!['%']);
        rest_fits(p, s);
    } else {
        let rest = q.drop_first();
        assert(p.drop_first() =~= rest + seq!['%']);
        assert(p[0] == q[0]);
        if s.len() > 0 {
            let t = s.drop_first();
            assert forall|k: int| 0 <= k < rest.len() implies #[trigger] rest[k] != '%' && rest[k]
                != '_' by {
                assert(q[k + 1] != '%' && q[k + 1] != '_');
            }
            front_fits(rest, t);
            folding(q[0], s[0]);
            if begins_with(s, q) {
                assert(same_but_for_case(q[0], s[0]));
                assert forall|k: int| 0 <= k < rest.len() implies same_but_for_case(
                    #[trigger] rest[k],
                    t[k],
                ) by {
                    assert(same_but_for_case(q[k + 1], s[k + 1]));
                }
            }
            if same_but_for_case(q[0], s[0]) && begins_with(t, rest) {
                assert forall|k: int| 0 <= k < q.len() implies same_but_for_case(
                    #[trigger] q[k],
                    s[k],
                ) by {
                    if k > 0 {
                        assert(same_but_for_case(rest[k - 1], t[k - 1]));
                    }
                }
            }
        }
    }
}

proof fn anywhere_fits(p: Seq<char>, s: Seq<char>, k: int)
    requires
        p.len() > 0,
        p[0] == '%',
    ensures
        0 <= k <= s.len() && like(p.drop_first(), s.skip(k)) ==> like(p, s),
        like(p, s) ==> exists|j: int| 0 <= j <= s.len() && like(p.drop_first(), #[trigger] s.skip(j)),
    decreases s.len(),
{
    assert(s.skip(0) =~= s);
    if s.len() > 0 {
        let t = s.drop_first();
        anywhere_fits(p, t, k - 1);
        if 0 < k <= s.len() {
            assert(t.skip(k - 1) =~= s.skip(k));
        }
        if like(p, t) {
            let j = choose|j: int|
                0 <= j <= t.len() && like(p.drop_first(), #[trigger] t.skip(j));
            assert(t.skip(j) =~= s.skip(j + 1));
        }
    } else if like(p, s) {
        assert(like(p.drop_first(), s.skip(0)));
    }
}

/// A query without wildcards finds exactly the names that it stands in,
/// whatever the case of their letters.
pub proof fn queries_find_the_names_that_hold_them(q: Seq<char>, name: Seq<char>, k: int)
    requires
        forall|k: int| 0 <= k < q.len() ==> #[trigger] q[k] != '%' && q[k] != '_',
    ensures
        0 <= k <= name.len() && begins_with(name.skip(k), q) ==> name_fits(Some(q), name),
        name_fits(Some(q), name) ==> exists|j: int|
            0 <= j <= name.len() && begins_with(#[trigger] name.skip(j), q),
        name_fits(None, name),
{
    reveal_strlit("%");
    assert("%"@ =~= seq!['%']);
    let p = "%"@ + q + "%"@;
    assert(p.drop_first() =~= q + seq!['%']);
    anywhere_fits(p, name, k);
    front_fits(q, name.skip(k));
    if name_fits(Some(q), name) {
        let j = choose|j: int|
            0 <= j <= name.len() && like(p.drop_first(), #[trigger] name.skip(j));
        front_fits(q, name.skip(j));
    }
}

/// A page shows objects as they are, the newest first and under one time by
/// hash, none that the cursor has passed, and leaves out none while it has room.
pub proof fn pages_show_the_newest(
    db: DbView,
    query: Option<Seq<char>>,
    limit: int,
    at: Position,
    out: Seq<SummaryView>,
    more: bool,
    i: int,
    h: Seq<char>,
)
    requires
        db.page(query, limit, at, out, more),
        db.rows_under_their_hash(),
        0 <= i < out.len(),
        db.objects.dom().contains(h),
    ensures
        out.len() <= limit,
        db.objects.dom().contains(out[i].hash),
        out[i].name == db.objects[out[i].hash].object.name,
        out[i].store_path == db.objects[out[i].hash].object.store_path,
        out[i].nar_size == db.objects[out[i].hash].object.nar_size,
        out[i].file_size == db.objects[out[i].hash].object.file_size,
        out[i].created_at == db.objects[out[i].hash].created_at,
        out[i].created_at <= at.time,
        out[i].created_at == at.time ==> text_lt(at.hash, out[i].hash),
        i + 1 < out.len() ==> out[i].created_at >= out[i + 1].created_at,
        i + 1 < out.len() && out[i].created_at == out[i + 1].created_at ==> text_lt(
            out[i].hash,
            out[i + 1].hash,
        ),
        name_fits(query, db.objects[h].object.name) && db.objects[h].created_at < at.time && (!more
            || db.objects[h].created_at > out[i].created_at) ==> exists|j: int|
            0 <= j < out.len() && (#[trigger] out[j]).hash == h,
{
    assert(db.listed(query, at, out[i].hash));
    if i + 1 < out.len() {
        assert(newer(out[i], out[i + 1]));
    }
    if name_fits(query, db.objects[h].object.name) && db.objects[h].created_at < at.time && (!more
        || db.objects[h].created_at > out[i].created_at) {
        assert(db.listed(query, at, h));
        if more && !(exists|j: int| 0 <= j < out.len() && (#[trigger] out[j]).hash == h) {
            assert(newer(out[i], summary_of(db.objects[h])));
        }
    }
}

/// The references that a tree shows below an object: all but those to itself.
pub open spec fn shown_references(own: Seq<char>, references: Seq<Seq<char>>) -> Seq<Seq<char>>
    decreases references.len(),
{
    if references.len() == 0 {
        Seq::empty()
    } else if hash_prefix(references.last()) == own {
        shown_references(own, references.drop_last())
    } else {
        shown_references(own, references.drop_last()).push(references.last())
    }
}

/// The names of the nodes.
pub open spec fn node_names(nodes: Seq<NodeView>) -> Seq<Seq<char>> {
    nodes.map_values(|n: NodeView| n.name)
}

proof fn references_have_nodes(
    db: DbView,
    own: Seq<char>,
    references: Seq<Seq<char>>,
    n: nat,
    seen: Set<Seq<char>>,
    depth: nat,
)
    requires
        depth > 0,
        n <= references.len(),
    ensures
        ({
            let nodes = expand(db, own, references, n, seen, depth).0;
            &&& node_names(nodes) == shown_references(own, references.take(n as int))
            &&& forall|i: int|
                0 <= i < nodes.len() ==> is_faithful(db, #[trigger] nodes[i], depth)
        }),
    decreases depth, n,
{
    if n == 0 {
        assert(node_names(expand(db, own, references, n, seen, depth).0) =~= Seq::empty());
    } else {
        let m = (n - 1) as nat;
        references_have_nodes(db, own, references, m, seen, depth);
        let (nodes, so_far) = expand(db, own, references, m, seen, depth);
        let all = expand(db, own, references, n, seen, depth).0;
        let name = references[n - 1];
        let hash = hash_prefix(name);
        assert(references.take(n as int).drop_last() =~= references.take(m as int));
        assert(references.take(n as int).last() == name);
        if hash != own {
            let node = all.last();
            assert(all =~= nodes.push(node));
            assert(node_names(all) =~= node_names(nodes).push(name));
            if !node.truncated && !node.missing && depth > 1 {
                let inner = db.objects[hash].object.references;
                references_have_nodes(
                    db,
                    hash,
                    inner,
                    inner.len(),
                    so_far.insert(hash),
                    (depth - 1) as nat,
                );
                assert(inner.take(inner.len() as int) =~= inner);
            }
            if depth == 1 {
                let inner = db.objects[hash].object.references;
                assert(expand(db, hash, inner, inner.len(), so_far.insert(hash), 0).0.len() == 0);
            }
            assert(is_faithful(db, node, depth));
            assert forall|i: int| 0 <= i < all.len() implies is_faithful(
                db,
                #[trigger] all[i],
                depth,
            ) by {
                if i < nodes.len() {
                    assert(all[i] == nodes[i]);
                }
            }
        } else {
            assert(all == nodes);
        }
    }
}

/// A node tells of its object: its hash stands in front of its name, it is
/// missing where the cache does not hold it, and it has the references of the
/// object below it, unless it was cut or lies at the last level.
pub open spec fn is_faithful(db: DbView, node: NodeView, depth: nat) -> bool {
    &&& node.hash == hash_prefix(node.name)
    &&& node.missing <==> !db.objects.dom().contains(node.hash)
    &&& node.missing || node.truncated || depth <= 1 ==> node.children.len() == 0
    &&& !node.missing && !node.truncated && depth > 1 ==> node_names(node.children)
        == shown_references(node.hash, db.objects[node.hash].object.references)
}

/// A tree shows each reference of its object but those to itself, in their order,
/// and of each what the catalogue knows.
pub proof fn trees_show_every_reference(
    db: DbView,
    hash: Seq<char>,
    seen: Set<Seq<char>>,
    depth: nat,
    i: int,
)
    requires
        depth > 0,
    ensures
        ({
            let references = db.objects[hash].object.references;
            let nodes = expand(db, hash, references, references.len(), seen, depth).0;
            &&& node_names(nodes) == shown_references(hash, references)
            &&& 0 <= i < nodes.len() ==> is_faithful(db, nodes[i], depth)
        }),
{
    let references = db.objects[hash].object.references;
    references_have_nodes(db, hash, references, references.len(), seen, depth);
    assert(references.take(references.len() as int) =~= references);
}

/// Without a cursor a listing begins in front of everything that was made before
/// the end of time, and so it does behind a cursor that is none.
pub proof fn listings_begin_at_the_newest(cursor: Seq<char>, time: i64, hash: Seq<char>)
    requires
        !cursor.contains(':'),
        time < i64::MAX,
    ensures
        behind(position_of(None), time, hash),
        behind(position_of(Some(cursor)), time, hash),
{
    crate::text::first_of_finds(cursor, ':');
    let n = crate::text::first_of(cursor, ':');
    if n < cursor.len() {
        assert(cursor.contains(cursor[n]));
    }
}

/// A pin is listed as it is kept, with the path of its object.
pub proof fn pins_are_listed_as_kept(p: Pin, v: PinView, db: DbView)
    requires
        pin_listed(p, v, db),
    ensures
        p.name@ == v.name,
        p.store_path_hash@ == v.store_path_hash,
        p.store_path@ == db.objects[v.store_path_hash].object.store_path,
        p.expires_at == v.expires_at,
        p.created_at == v.created_at,
{
}

/// A node is seen as what it holds, and so is each of its children, in their
/// order.
pub proof fn nodes_are_seen_as_they_are(node: TreeNode, i: int)
    requires
        0 <= i < node.children@.len(),
    ensures
        node_view(node).hash == node.hash@,
        node_view(node).name == node.name@,
        node_view(node).missing == node.missing,
        node_view(node).truncated == node.truncated,
        node_view(node).children.len() == node.children@.len(),
        node_view(node).children[i] == node_view(node.children@[i]),
{
    lists_of_nodes_are_seen(node.children@, i);
}

proof fn lists_of_nodes_are_seen(v: Seq<TreeNode>, i: int)
    requires
        0 <= i < v.len(),
    ensures
        nodes_view(v).len() == v.len(),
        nodes_view(v)[i] == node_view(v[i]),
    decreases v.len(),
{
    let front = v.drop_last();
    if front.len() > 0 {
        lists_of_nodes_are_seen(front, if i < front.len() { i } else { 0 });
    } else {
        assert(nodes_view(front).len() == 0);
    }
}

/// A pattern is read character by character: `%` fits whatever stands there, `_`
/// any one character, and any other character itself in either case; at its end
/// nothing may be left.
pub proof fn patterns_are_read_by_character(
    p: Seq<char>,
    c: char,
    d: char,
    s: Seq<char>,
    k: int,
)
    ensures
        like(Seq::empty(), s) <==> s.len() == 0,
        like(seq!['_'] + p, seq![d] + s) <==> like(p, s),
        !like(seq!['_'] + p, Seq::empty()),
        c != '%' && c != '_' ==> (like(seq![c] + p, seq![d] + s) <==> same_but_for_case(c, d) && like(
            p,
            s,
        )),
        c != '%' ==> !like(seq![c] + p, Seq::empty()),
        0 <= k <= s.len() && like(p, s.skip(k)) ==> like(seq!['%'] + p, s),
        like(seq!['%'] + p, s) ==> exists|j: int| 0 <= j <= s.len() && like(p, #[trigger] s.skip(j)),
{
    assert((seq!['_'] + p).drop_first() =~= p);
    assert((seq![c] + p).drop_first() =~= p);
    assert((seq!['%'] + p).drop_first() =~= p);
    assert((seq![d] + s).drop_first() =~= s);
    assert((seq![d] + s)[0] == d);
    assert((seq![c] + p)[0] == c);
    assert((seq!['_'] + p)[0] == '_');
    folding(c, d);
    anywhere_fits(seq!['%'] + p, s, k);
}

/// How often a node for `h` comes up in `nodes` and below them, cut or not.
pub open spec fn times_shown(nodes: Seq<NodeView>, h: Seq<char>) -> nat
    decreases nodes,
{
    if nodes.len() == 0 {
        0
    } else {
        times_shown(nodes.drop_last(), h) + node_shown(nodes.last(), h)
    }
}

/// How often a node for `h` comes up in the tree of `node`, cut or not.
pub open spec fn node_shown(node: NodeView, h: Seq<char>) -> nat
    decreases node,
{
    times_shown(node.children, h) + if node.hash == h {
        1nat
    } else {
        0
    }
}

proof fn the_first_is_whole(
    db: DbView,
    own: Seq<char>,
    references: Seq<Seq<char>>,
    n: nat,
    seen: Set<Seq<char>>,
    depth: nat,
    h: Seq<char>,
)
    ensures
        ({
            let (nodes, after) = expand(db, own, references, n, seen, depth);
            &&& !seen.contains(h) && times_shown(nodes, h) > 0 ==> times_whole(nodes, h) == 1
            &&& after.contains(h) <==> seen.contains(h) || times_shown(nodes, h) > 0
        }),
    decreases depth, n,
{
    if n > 0 && depth > 0 {
        the_first_is_whole(db, own, references, (n - 1) as nat, seen, depth, h);
        let (nodes, so_far) = expand(db, own, references, (n - 1) as nat, seen, depth);
        let hash = hash_prefix(references[n - 1]);
        if hash != own {
            let (all, after) = expand(db, own, references, n, seen, depth);
            let node = all.last();
            reveal_with_fuel(times_whole, 2);
            reveal_with_fuel(node_whole, 2);
            reveal_with_fuel(times_shown, 2);
            reveal_with_fuel(node_shown, 2);
            assert(all.drop_last() =~= nodes);
            assert(times_whole(all, h) == times_whole(nodes, h) + node_whole(node, h));
            assert(times_shown(all, h) == times_shown(nodes, h) + node_shown(node, h));
            expanding_shows_once(db, own, references, (n - 1) as nat, seen, depth, h);
            if so_far.contains(hash) || !db.objects.dom().contains(hash) {
                assert(node.children.len() == 0);
            } else {
                let inner = db.objects[hash].object.references;
                let more = so_far.insert(hash);
                let d = (depth - 1) as nat;
                the_first_is_whole(db, hash, inner, inner.len(), more, d, h);
                expanding_shows_once(db, hash, inner, inner.len(), more, d, h);
                assert(node.children == expand(db, hash, inner, inner.len(), more, d).0);
            }
        }
    }
}

/// A hash that comes up in a tree at all comes up in full once: it is not cut
/// unless it stands in full elsewhere.
pub proof fn only_repeats_are_cut(db: DbView, hash: Seq<char>, depth: nat, h: Seq<char>)
    ensures
        ({
            let references = db.objects[hash].object.references;
            let children = expand(
                db,
                hash,
                references,
                references.len(),
                Set::<Seq<char>>::empty().insert(hash),
                depth,
            ).0;
            h != hash && times_shown(children, h) > 0 ==> times_whole(children, h) == 1
        }),
{
    let references = db.objects[hash].object.references;
    let seen = Set::<Seq<char>>::empty().insert(hash);
    the_first_is_whole(db, hash, references, references.len(), seen, depth, h);
}

/// A cursor with a hash but without a time that can be read goes on behind that
/// hash at the end of time.
pub proof fn cursors_without_a_time_begin_at_the_newest(time: Seq<char>, hash: Seq<char>)
    requires
        !time.contains(':'),
        parse_signed(time) is None,
    ensures
        position_of(Some(time + seq![':'] + hash)) == (Position { time: i64::MAX, hash }),
{
    crate::text::texts_are_cut_at_the_first(time, ':', hash);
}

/// A page with more behind it is full, and something is left that it does not
/// show; one without shows everything that the cursor has not passed.
pub proof fn pages_are_full_while_more_is_left(
    db: DbView,
    query: Option<Seq<char>>,
    limit: int,
    at: Position,
    out: Seq<SummaryView>,
    more: bool,
    h: Seq<char>,
)
    requires
        db.page(query, limit, at, out, more),
        db.objects.dom().contains(h),
        name_fits(query, db.objects[h].object.name),
        db.objects[h].created_at < at.time || (db.objects[h].created_at == at.time && text_lt(
            at.hash,
            h,
        )),
    ensures
        more ==> out.len() == limit && exists|g: Seq<char>| #[trigger]
            db.objects.dom().contains(g) && name_fits(query, db.objects[g].object.name) && forall|
                i: int,
            |
                0 <= i < out.len() ==> (#[trigger] out[i]).hash != g,
        !more ==> exists|i: int| 0 <= i < out.len() && (#[trigger] out[i]).hash == h,
        out.len() < limit ==> exists|i: int| 0 <= i < out.len() && (#[trigger] out[i]).hash == h,
{
    assert(db.listed(query, at, h));
    if more {
        let g = choose|g: Seq<char>| #[trigger]
            db.listed(query, at, g) && forall|i: int|
                0 <= i < out.len() ==> (#[trigger] out[i]).hash != g;
        assert(db.objects.dom().contains(g));
    }
}

/// A summary is seen with the fields that it has.
pub proof fn summaries_are_seen_as_they_are(v: Seq<Summary>, i: int)
    requires
        0 <= i < v.len(),
    ensures
        summaries(v).len() == v.len(),
        summaries(v)[i].hash == v[i].hash@,
        summaries(v)[i].name == v[i].name@,
        summaries(v)[i].store_path == v[i].store_path@,
        summaries(v)[i].nar_size == v[i].nar_size,
        summaries(v)[i].file_size == v[i].file_size,
        summaries(v)[i].created_at == v[i].created_at,
{
}

} // verus!
