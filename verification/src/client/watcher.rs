//! The store watcher: it pushes store paths as they become valid. What it has
//! seen is a cursor over the ids of the Nix database, which only grow, so that
//! a backlog, the first scan and the time after an outage are all just an old
//! cursor.

use vstd::prelude::*;
use vstd::string::*;

use crate::client::config::{in_dir, join_path, watch_upstream_keys, Config};
use crate::client::push::{
    is_by, is_upstream, signed_upstream, upstream_is_told_by_key_names, PathInfo,
};
use crate::db::copy_texts;
use crate::number::{decimal, decimal_int, decimal_int_reads_back, parse_signed, read_signed};
use crate::number::{show, show_signed};
use crate::table::{Keyed, Table};
use crate::text::{
    contains, ends_with, first_of_is, from_range, lines, lines_of, occurs, opt_str, same, texts,
    to_chars, trim, trim_back, trim_front, trimmed, without_return,
};

verus! {

/// Which new paths are not worth pushing.
#[derive(Debug)]
pub struct Filters {
    /// What one of these keys has signed is served elsewhere already.
    pub upstream_keys: Vec<String>,
    /// What holds one of these is excluded.
    pub exclude_patterns: Vec<String>,
}

/// A path that became valid.
#[derive(Debug)]
pub struct ValidPath {
    /// Its id, which is also the cursor behind it.
    pub id: i64,
    /// Full store path.
    pub path: String,
    /// Its signatures.
    pub sigs: Vec<String>,
}

/// The settings of a watcher.
#[derive(Debug)]
pub struct Watcher {
    /// The Nix database.
    pub nix_db: String,
    /// Where the cursor is kept.
    pub cursor_path: String,
    /// Seconds to wait where nothing is new.
    pub poll_interval_secs: u64,
    /// What not to push.
    pub filters: Filters,
    /// Tries of one path in one process, the first among them.
    pub max_attempts: u32,
    /// Where the watcher listens to be woken.
    pub socket_path: String,
}

impl Watcher {
    /// The watcher that is configured.
    pub fn configured(cfg: &Config) -> (r: Self)
        ensures
            r.nix_db@ == cfg.watch.nix_db@,
            r.cursor_path@ == cfg.watch.cursor_path@,
            r.poll_interval_secs == cfg.watch.poll_interval_secs,
            texts(r.filters.upstream_keys@) == match cfg.watch.upstream_keys {
                Some(keys) => texts(keys@),
                None => texts(cfg.upstream_keys@),
            },
            texts(r.filters.exclude_patterns@) == texts(cfg.watch.exclude_patterns@),
            r.max_attempts == cfg.watch.max_attempts,
            r.socket_path@ == cfg.watch.socket_path@,
    {
        Watcher {
            nix_db: cfg.watch.nix_db.clone(),
            cursor_path: cfg.watch.cursor_path.clone(),
            poll_interval_secs: cfg.watch.poll_interval_secs,
            filters: Filters {
                upstream_keys: watch_upstream_keys(cfg),
                exclude_patterns: copy_texts(&cfg.watch.exclude_patterns),
            },
            max_attempts: cfg.watch.max_attempts,
            socket_path: cfg.watch.socket_path.clone(),
        }
    }
}

/// How much of a path stands before its parts: the root, or a dot for the
/// directory that it begins in.
pub open spec fn path_start(path: Seq<char>) -> int {
    if path.len() > 0 && (path[0] == '/' || (path[0] == '.' && (path.len() == 1 || path[1]
        == '/'))) {
        1
    } else {
        0
    }
}

/// Where the part begins that ends at `end`.
pub open spec fn part_from(path: Seq<char>, start: int, end: int) -> int
    decreases end - start,
{
    if end <= start || path[end - 1] == '/' {
        end
    } else {
        part_from(path, start, end - 1)
    }
}

/// Where the parts end that end at `end` or before: a part that is empty or a
/// dot is none.
pub open spec fn parts_end(path: Seq<char>, start: int, end: int) -> int
    decreases end - start,
{
    let from = part_from(path, start, end);
    if end <= start {
        start
    } else if from >= end || path.subrange(from, end) == "."@ {
        parts_end(path, start, if start < from <= end {
            from - 1
        } else {
            start
        })
    } else {
        end
    }
}

/// The path of the file beside `path` whose name has `suffix` at its end. Where
/// `path` names no file, the file is in the directory that it names.
pub open spec fn beside(path: Seq<char>, suffix: Seq<char>) -> Seq<char> {
    let start = path_start(path);
    let end = parts_end(path, start, path.len() as int);
    let from = part_from(path, start, end);
    let name = path.subrange(from, end);
    if end == start || name == ".."@ {
        in_dir(path, suffix)
    } else {
        in_dir(
            path.take(parts_end(path, start, if from > start {
                from - 1
            } else {
                start
            })),
            name + suffix,
        )
    }
}

fn find_part(path: &Vec<char>, start: usize, end: usize) -> (r: usize)
    requires
        start <= end <= path@.len(),
    ensures
        r == part_from(path@, start as int, end as int),
        start <= r <= end,
{
    let mut r: usize = end;
    while r > start && path[r - 1] != '/'
        invariant
            start <= r <= end <= path@.len(),
            part_from(path@, start as int, end as int) == part_from(path@, start as int, r as int),
        decreases r,
    {
        r -= 1;
    }
    r
}

fn find_end(path: &Vec<char>, start: usize, end: usize) -> (r: usize)
    requires
        start <= end <= path@.len(),
    ensures
        r == parts_end(path@, start as int, end as int),
        start <= r <= end,
{
    let mut r: usize = end;
    while r > start
        invariant
            start <= r <= end <= path@.len(),
            parts_end(path@, start as int, end as int) == parts_end(path@, start as int, r as int),
        decreases r,
    {
        let from = find_part(path, start, r);
        let dot = r - from == 1 && path[from] == '.';
        proof {
            reveal_strlit(".");
            let part = path@.subrange(from as int, r as int);
            if dot {
                assert(part =~= "."@);
            }
            if part == "."@ {
                assert(part.len() == 1 && part[0] == '.');
            }
        }
        if from < r && !dot {
            return r;
        }
        r = if from > start {
            from - 1
        } else {
            start
        };
    }
    r
}

/// Where the list of paths is kept that could not be pushed: beside the cursor.
pub fn failed_path(cursor_path: &str) -> (r: String)
    ensures
        r@ == beside(cursor_path@, ".failed"@),
{
    let path = to_chars(cursor_path);
    let n: usize = path.len();
    let start: usize = if n > 0 && (path[0] == '/' || (path[0] == '.' && (n == 1 || path[1]
        == '/'))) {
        1
    } else {
        0
    };
    let end = find_end(&path, start, n);
    let from = find_part(&path, start, end);
    let name = from_range(&path, from, end);
    if end == start || same(name.as_str(), "..") {
        return join_path(cursor_path, ".failed");
    }
    let before = find_end(
        &path,
        start,
        if from > start {
            from - 1
        } else {
            start
        },
    );
    let dir = from_range(&path, 0, before);
    assert(dir@ =~= cursor_path@.take(before as int));
    join_path(dir.as_str(), name.concat(".failed").as_str())
}

/// One of `patterns` stands in `path`.
pub open spec fn is_excluded(patterns: Seq<String>, path: Seq<char>) -> bool {
    exists|i: int| 0 <= i < patterns.len() && occurs(path, (#[trigger] patterns[i])@)
}

impl Filters {
    /// Why a path is not pushed; `None` where it is.
    pub open spec fn reason(self, path: ValidPath) -> Option<Seq<char>> {
        if ".drv"@.is_suffix_of(path.path@) {
            Some("drv"@)
        } else if is_excluded(self.exclude_patterns@, path.path@) {
            Some("excluded"@)
        } else if is_upstream(texts(path.sigs@), texts(self.upstream_keys@)) {
            Some("upstream"@)
        } else {
            None
        }
    }

    /// Why a path is not pushed: it is a recipe, which Nix has from its sources,
    /// it is excluded, or others serve it already.
    pub fn should_skip(&self, path: &ValidPath) -> (r: Option<&'static str>)
        ensures
            opt_str(r) == self.reason(*path),
    {
        if ends_with(path.path.as_str(), ".drv") {
            return Some("drv");
        }
        let mut i: usize = 0;
        while i < self.exclude_patterns.len()
            invariant
                i <= self.exclude_patterns@.len(),
                !".drv"@.is_suffix_of(path.path@),
                forall|k: int|
                    0 <= k < i ==> !occurs(path.path@, (#[trigger] self.exclude_patterns@[k])@),
            decreases self.exclude_patterns@.len() - i,
        {
            if contains(path.path.as_str(), self.exclude_patterns[i].as_str()) {
                assert(occurs(path.path@, self.exclude_patterns@[i as int]@));
                return Some("excluded");
            }
            i += 1;
        }
        if signed_upstream(&path.sigs, &self.upstream_keys) {
            return Some("upstream");
        }
        None
    }
}

/// The cursor in a file; `None` where there is none that can be read.
pub fn cursor_of(text: Option<&str>) -> (r: Option<i64>)
    ensures
        match (text, r) {
            (None, r) => r is None,
            (Some(t), Some(n)) => parse_signed(trimmed(t@)) == Some(n as int),
            (Some(t), None) => parse_signed(trimmed(t@)) is None,
        },
{
    match text {
        None => None,
        Some(t) => read_signed(trim(t)),
    }
}

/// The file that holds a cursor.
pub fn cursor_text(cursor: i64) -> (r: String)
    ensures
        r@ == decimal_int(cursor as int),
{
    show_signed(cursor)
}

/// A cursor that was written is read back.
pub proof fn cursor_round_trips(cursor: i64)
    ensures
        parse_signed(trimmed(decimal_int(cursor as int))) == Some(cursor as int),
{
    decimal_int_reads_back(cursor);
    let s = decimal_int(cursor as int);
    crate::number::decimal_is_not_white(cursor as int);
    assert(trim_front(s) == s);
    assert(trim_back(s) == s);
}

/// Where the watcher begins: at the saved cursor, or else behind everything
/// that is there, unless all of it is asked for.
pub fn first_cursor(saved: Option<i64>, full_sync: bool, newest: i64) -> (r: i64)
    ensures
        r == match saved {
            Some(cursor) => cursor,
            None => if full_sync {
                0
            } else {
                newest
            },
        },
{
    match saved {
        Some(cursor) => cursor,
        None => if full_sync {
            0
        } else {
            newest
        },
    }
}

/// Where a drain begins. Without a saved cursor nothing says where, and that
/// nothing is to be pushed would be a guess: `None` is an error.
pub fn drain_cursor(saved: Option<i64>, full_sync: bool) -> (r: Option<i64>)
    ensures
        r == match saved {
            Some(cursor) => Some(cursor),
            None => if full_sync {
                Some(0i64)
            } else {
                None
            },
        },
{
    match saved {
        Some(cursor) => Some(cursor),
        None => if full_sync {
            Some(0)
        } else {
            None
        },
    }
}

/// How often a path was tried in this process.
pub struct Attempts {
    /// The path.
    pub path: String,
    /// How often.
    pub count: u32,
}

impl View for Attempts {
    type V = (Seq<char>, u32);

    open spec fn view(&self) -> (Seq<char>, u32) {
        (self.path@, self.count)
    }
}

impl Keyed for Attempts {
    open spec fn key_of(v: (Seq<char>, u32)) -> Seq<char> {
        v.0
    }

    fn key(&self) -> (r: &str) {
        self.path.as_str()
    }
}

/// What became of another try.
#[derive(Debug, Clone, Copy, PartialEq, Eq, Structural)]
pub enum Retried {
    /// The path was pushed.
    Pushed,
    /// It failed again, for the so-manyth time, and will be tried again.
    Failed(u32),
    /// It failed, for the so-manyth time, and is given up until a restart.
    GivenUp(u32),
}

/// How far the watcher has come.
pub struct WatchState {
    /// The id of the last path seen.
    pub cursor: i64,
    /// The paths that could not be pushed.
    pub failed: Table<String>,
    /// How often they were tried in this process.
    pub attempts: Table<Attempts>,
}

impl WatchState {
    /// The tables are in order, and each path stands under itself.
    pub open spec fn wf(self) -> bool {
        &&& self.failed.wf()
        &&& self.attempts.wf()
        &&& forall|p: Seq<char>| #[trigger] self.failed@.dom().contains(p) ==> self.failed@[p] == p
    }

    /// How often `p` was tried.
    pub open spec fn tries(self, p: Seq<char>) -> int {
        if self.attempts@.dom().contains(p) {
            self.attempts@[p].1 as int
        } else {
            0
        }
    }

    /// The watcher starts: every failed path has all its tries again.
    pub fn new(cursor: i64, failed: Table<String>) -> (r: Self)
        requires
            failed.wf(),
            forall|p: Seq<char>| #[trigger] failed@.dom().contains(p) ==> failed@[p] == p,
        ensures
            r.wf(),
            r.cursor == cursor,
            r.failed == failed,
            forall|p: Seq<char>| #[trigger] r.tries(p) == 0,
    {
        WatchState { cursor, failed, attempts: Table::new() }
    }

    /// A path is seen: the cursor passes it, whatever becomes of it, since a
    /// cursor that stands still is an outage. Says why it is not pushed, if it
    /// is not.
    pub fn see(&mut self, path: &ValidPath, filters: &Filters) -> (r: Option<&'static str>)
        ensures
            opt_str(r) == filters.reason(*path),
            *final(self) == (WatchState { cursor: path.id, ..*old(self) }),
    {
        self.cursor = path.id;
        filters.should_skip(path)
    }

    /// A new path could not be pushed.
    pub fn push_failed(&mut self, path: &str)
        requires
            old(self).wf(),
        ensures
            final(self).wf(),
            final(self).cursor == old(self).cursor,
            final(self).failed@.dom() == old(self).failed@.dom().insert(path@),
            final(self).attempts@ == old(self).attempts@.insert(path@, (path@, 1)),
    {
        let row = Attempts { path: path.to_owned(), count: 1 };
        assert(row@ == (path@, 1u32));
        self.attempts.put(row);
        self.failed.put(path.to_owned());
        assert(self.failed@.dom() =~= old(self).failed@.dom().insert(path@));
    }

    fn tried(&self, path: &str) -> (r: u32)
        requires
            self.wf(),
        ensures
            r == self.tries(path@),
    {
        match self.attempts.get(path) {
            Some(a) => a.count,
            None => 0,
        }
    }

    /// The failed paths that have tries left, in order.
    pub fn due(&self, max_attempts: u32) -> (r: Vec<String>)
        requires
            self.wf(),
        ensures
            texts(r@) == texts(self.failed.rows@).filter(
                |p: Seq<char>| self.tries(p) < max_attempts,
            ),
    {
        let ghost keep = |p: Seq<char>| self.tries(p) < max_attempts;
        let ghost all = texts(self.failed.rows@);
        let mut out: Vec<String> = Vec::new();
        let mut i: usize = 0;
        proof {
            reveal(Seq::filter);
            assert(texts(out@) =~= all.take(0).filter(keep));
        }
        while i < self.failed.rows.len()
            invariant
                i <= self.failed.rows@.len(),
                self.wf(),
                all == texts(self.failed.rows@),
                keep == (|p: Seq<char>| self.tries(p) < max_attempts),
                texts(out@) == all.take(i as int).filter(keep),
            decreases self.failed.rows@.len() - i,
        {
            let ghost prior = out@;
            proof {
                reveal(Seq::filter);
                assert(all.take(i as int + 1).drop_last() =~= all.take(i as int));
            }
            let path = self.failed.rows[i].as_str();
            if self.tried(path) < max_attempts {
                out.push(path.to_owned());
                assert(texts(out@) =~= texts(prior).push(path@));
            }
            i += 1;
        }
        assert(all.take(i as int) =~= all);
        out
    }

    /// A failed path was tried again.
    pub fn retried(&mut self, path: &str, ok: bool, max_attempts: u32) -> (r: Retried)
        requires
            old(self).wf(),
            old(self).tries(path@) < u32::MAX,
        ensures
            final(self).wf(),
            final(self).cursor == old(self).cursor,
            if ok {
                &&& r == Retried::Pushed
                &&& final(self).failed@ == old(self).failed@.remove(path@)
                &&& final(self).attempts@ == old(self).attempts@.remove(path@)
            } else {
                let n = (old(self).tries(path@) + 1) as u32;
                &&& r == if n >= max_attempts {
                    Retried::GivenUp(n)
                } else {
                    Retried::Failed(n)
                }
                &&& final(self).failed == old(self).failed
                &&& final(self).attempts@ == old(self).attempts@.insert(path@, (path@, n))
            },
    {
        if ok {
            let _ = self.attempts.delete(path);
            let _ = self.failed.delete(path);
            return Retried::Pushed;
        }
        let count: u32 = self.tried(path) + 1;
        let row = Attempts { path: path.to_owned(), count };
        assert(row@ == (path@, count));
        self.attempts.put(row);
        if count >= max_attempts {
            Retried::GivenUp(count)
        } else {
            Retried::Failed(count)
        }
    }
}

/// A path is tried at most so often in one process: once that many tries have
/// failed, it is not due any more.
pub proof fn given_up_paths_are_not_due(state: WatchState, p: Seq<char>, max_attempts: u32)
    requires
        state.tries(p) >= max_attempts,
    ensures
        !texts(state.failed.rows@).filter(
            |q: Seq<char>| state.tries(q) < max_attempts,
        ).contains(p),
{
    let keep = |q: Seq<char>| state.tries(q) < max_attempts;
    let due = texts(state.failed.rows@).filter(keep);
    if due.contains(p) {
        let k = choose|k: int| 0 <= k < due.len() && due[k] == p;
        filter_keeps_only(texts(state.failed.rows@), keep, k);
    }
}

proof fn filter_keeps_only(s: Seq<Seq<char>>, keep: spec_fn(Seq<char>) -> bool, k: int)
    requires
        0 <= k < s.filter(keep).len(),
    ensures
        keep(s.filter(keep)[k]),
    decreases s.len(),
{
    reveal(Seq::filter);
    if s.len() > 0 {
        let init = s.drop_last().filter(keep);
        if k < init.len() {
            filter_keeps_only(s.drop_last(), keep, k);
        }
    }
}

/// The file that holds failed paths: one on each line.
pub open spec fn failed_lines(paths: Seq<Seq<char>>) -> Seq<char>
    decreases paths.len(),
{
    if paths.len() == 0 {
        Seq::empty()
    } else {
        failed_lines(paths.drop_last()) + paths.last() + "\n"@
    }
}

/// The file that holds the failed paths.
pub fn failed_text(failed: &Table<String>) -> (r: String)
    ensures
        r@ == failed_lines(texts(failed.rows@)),
{
    let ghost all = texts(failed.rows@);
    let mut out = String::new();
    let mut i: usize = 0;
    assert(out@ =~= failed_lines(all.take(0)));
    while i < failed.rows.len()
        invariant
            i <= failed.rows@.len(),
            all == texts(failed.rows@),
            out@ == failed_lines(all.take(i as int)),
        decreases failed.rows@.len() - i,
    {
        assert(all.take(i as int + 1).drop_last() =~= all.take(i as int));
        out = out.concat(failed.rows[i].as_str()).concat("\n");
        i += 1;
    }
    assert(all.take(i as int) =~= all);
    out
}

/// The lines of a file that hold something.
pub open spec fn failed_in(text: Seq<char>) -> Set<Seq<char>> {
    Set::new(|p: Seq<char>| p.len() > 0 && lines_of(text).contains(p))
}

/// The failed paths in a file.
pub fn parse_failed(text: &str) -> (r: Table<String>)
    ensures
        r.wf(),
        r@.dom() == failed_in(text@),
        forall|p: Seq<char>| #[trigger] r@.dom().contains(p) ==> r@[p] == p,
{
    let found = lines(text);
    let ghost all = lines_of(text@);
    let mut out: Table<String> = Table::new();
    let mut i: usize = 0;
    while i < found.len()
        invariant
            i <= found@.len(),
            all == texts(found@),
            out.wf(),
            forall|p: Seq<char>| #[trigger]
                out@.dom().contains(p) <==> p.len() > 0 && all.take(i as int).contains(p),
            forall|p: Seq<char>| #[trigger] out@.dom().contains(p) ==> out@[p] == p,
        decreases found@.len() - i,
    {
        let ghost before = out@;
        let ghost line = all[i as int];
        if !found[i].as_str().is_empty() {
            out.put(found[i].clone());
        }
        proof {
            let done = all.take(i as int);
            let next = all.take(i as int + 1);
            assert(next =~= done.push(line));
            assert forall|p: Seq<char>| #[trigger]
                next.contains(p) <==> done.contains(p) || p == line by {
                if done.contains(p) {
                    let k = choose|k: int| 0 <= k < done.len() && done[k] == p;
                    assert(next[k] == p);
                }
                if p == line {
                    assert(next[i as int] == p);
                }
            }
        }
        i += 1;
    }
    assert(all.take(i as int) =~= all);
    assert(out@.dom() =~= failed_in(text@));
    out
}

/// A path that stands on a line of its own.
pub open spec fn one_line(p: Seq<char>) -> bool {
    p.len() > 0 && !p.contains('\n') && p.last() != '\r'
}

proof fn lines_of_one_more(text: Seq<char>, p: Seq<char>)
    requires
        text.len() == 0 || text.last() == '\n',
        one_line(p),
    ensures
        lines_of(text + p + "\n"@) == lines_of(text).push(p),
    decreases text.len(),
{
    reveal_strlit("\n");
    let whole = text + p + "\n"@;
    if text.len() == 0 {
        assert(whole[p.len() as int] == '\n');
        assert forall|k: int| 0 <= k < p.len() implies whole[k] != '\n' by {
            if whole[k] == '\n' {
                assert(p[k] == '\n');
                assert(p.contains('\n'));
            }
        }
        first_of_is(whole, '\n', p.len() as int);
        assert(whole.take(p.len() as int) =~= p);
        assert(whole.skip(p.len() as int + 1) =~= Seq::<char>::empty());
        assert(lines_of(whole) =~= seq![p] + lines_of(Seq::<char>::empty()));
        assert(lines_of(text).push(p) =~= seq![p]);
    } else {
        crate::text::first_of_finds(text, '\n');
        let k = crate::text::first_of(text, '\n');
        assert(text[text.len() - 1] == '\n');
        assert(0 <= k < text.len());
        assert(whole[k] == '\n');
        assert forall|j: int| 0 <= j < k implies whole[j] != '\n' by {
            assert(text[j] != '\n');
        }
        first_of_is(whole, '\n', k);
        let rest = text.skip(k + 1);
        assert(whole.take(k) =~= text.take(k));
        assert(whole.skip(k + 1) =~= rest + p + "\n"@);
        if rest.len() > 0 {
            assert(rest.last() == text.last());
        }
        lines_of_one_more(rest, p);
        assert(lines_of(whole) =~= seq![without_return(text.take(k))] + lines_of(rest).push(p));
        assert(lines_of(text).push(p) =~= seq![without_return(text.take(k))] + lines_of(rest).push(
            p,
        ));
    }
}

/// Failed paths that were written are read back.
pub proof fn failed_paths_round_trip(paths: Seq<Seq<char>>)
    requires
        forall|i: int| 0 <= i < paths.len() ==> one_line(#[trigger] paths[i]),
    ensures
        lines_of(failed_lines(paths)) == paths,
        failed_in(failed_lines(paths)) == paths.to_set(),
    decreases paths.len(),
{
    reveal_strlit("\n");
    if paths.len() == 0 {
        assert(lines_of(failed_lines(paths)) =~= paths);
    } else {
        let init = paths.drop_last();
        failed_paths_round_trip(init);
        let text = failed_lines(init);
        if init.len() > 0 {
            assert(text.last() == '\n');
        }
        assert(one_line(paths[paths.len() - 1]));
        lines_of_one_more(text, paths.last());
        assert(init.push(paths.last()) =~= paths);
    }
    assert forall|p: Seq<char>| failed_in(failed_lines(paths)).contains(p) <==> paths.to_set().contains(p) by {
        if paths.contains(p) {
            let k = choose|k: int| 0 <= k < paths.len() && paths[k] == p;
            assert(one_line(paths[k]));
        }
    }
    assert(failed_in(failed_lines(paths)) =~= paths.to_set());
}

/// What a drain does: everything up to the newest path of now, and every
/// failed path.
pub struct Drain {
    /// The id of the last path seen.
    pub cursor: i64,
    /// The newest id when the drain began.
    pub target: i64,
    /// The paths that could not be pushed.
    pub failed: Table<String>,
    /// What to push, in order.
    pub todo: Vec<String>,
}

/// How many of `batch` from the front are not newer than `target`.
pub open spec fn within(batch: Seq<ValidPath>, target: i64) -> nat
    decreases batch.len(),
{
    if batch.len() == 0 || batch[0].id > target {
        0
    } else {
        1 + within(batch.skip(1), target)
    }
}

/// Of `batch`, what is to be pushed and not among `failed`, in order.
pub open spec fn to_push(batch: Seq<ValidPath>, filters: Filters, failed: Set<Seq<char>>) -> Seq<
    Seq<char>,
>
    decreases batch.len(),
{
    if batch.len() == 0 {
        Seq::empty()
    } else {
        let init = to_push(batch.drop_last(), filters, failed);
        if filters.reason(batch.last()) is None && !failed.contains(batch.last().path@) {
            init.push(batch.last().path@)
        } else {
            init
        }
    }
}

proof fn within_fits(batch: Seq<ValidPath>, target: i64)
    ensures
        within(batch, target) <= batch.len(),
    decreases batch.len(),
{
    if batch.len() > 0 && batch[0].id <= target {
        within_fits(batch.skip(1), target);
    }
}

impl Drain {
    /// The table is in order, and each path stands under itself.
    pub open spec fn wf(self) -> bool {
        &&& self.failed.wf()
        &&& forall|p: Seq<char>| #[trigger] self.failed@.dom().contains(p) ==> self.failed@[p] == p
    }

    /// A drain begins with the failed paths.
    pub fn new(cursor: i64, target: i64, failed: Table<String>) -> (r: Self)
        requires
            failed.wf(),
            forall|p: Seq<char>| #[trigger] failed@.dom().contains(p) ==> failed@[p] == p,
        ensures
            r.wf(),
            r.cursor == cursor,
            r.target == target,
            r.failed == failed,
            texts(r.todo@) == texts(failed.rows@),
    {
        let todo = crate::db::copy_texts(&failed.rows);
        Drain { cursor, target, failed, todo }
    }

    /// Takes the next batch of new paths, the oldest first. `true` means that
    /// there may be more to take.
    pub fn take(&mut self, batch: &Vec<ValidPath>, filters: &Filters) -> (r: bool)
        requires
            old(self).wf(),
        ensures
            final(self).wf(),
            final(self).target == old(self).target,
            final(self).failed == old(self).failed,
            ({
                let n = within(batch@, old(self).target) as int;
                &&& 0 <= n <= batch@.len()
                &&& final(self).cursor == if n == 0 {
                    old(self).cursor
                } else {
                    batch@[n - 1].id
                }
                &&& texts(final(self).todo@) == texts(old(self).todo@) + to_push(
                    batch@.take(n),
                    *filters,
                    old(self).failed@.dom(),
                )
                &&& r == (batch@.len() > 0 && n == batch@.len() && batch@[n - 1].id
                    < old(self).target)
            }),
    {
        let ghost todo = texts(self.todo@);
        let ghost target = self.target;
        let mut i: usize = 0;
        proof {
            within_fits(batch@, target);
            assert(batch@.skip(0) =~= batch@);
            assert(texts(self.todo@) =~= todo + to_push(batch@.take(0), *filters, self.failed@.dom()));
        }
        while i < batch.len()
            invariant
                i <= batch@.len(),
                self.wf(),
                self.target == target == old(self).target,
                self.failed == old(self).failed,
                within(batch@, target) == i + within(batch@.skip(i as int), target),
                within(batch@, target) <= batch@.len(),
                self.cursor == if i == 0 {
                    old(self).cursor
                } else {
                    batch@[i - 1].id
                },
                todo == texts(old(self).todo@),
                texts(self.todo@) == todo + to_push(
                    batch@.take(i as int),
                    *filters,
                    self.failed@.dom(),
                ),
            decreases batch@.len() - i,
        {
            let entry = &batch[i];
            if entry.id > self.target {
                assert(within(batch@.skip(i as int), target) == 0);
                return false;
            }
            self.cursor = entry.id;
            let ghost prior = self.todo@;
            proof {
                assert(batch@.skip(i as int).skip(1) =~= batch@.skip(i as int + 1));
                assert(batch@.take(i as int + 1).drop_last() =~= batch@.take(i as int));
            }
            if filters.should_skip(entry).is_none() && !self.failed.has(entry.path.as_str()) {
                self.todo.push(entry.path.clone());
                assert(texts(self.todo@) =~= texts(prior).push(entry.path@));
                assert(texts(self.todo@) =~= todo + to_push(
                    batch@.take(i as int + 1),
                    *filters,
                    self.failed@.dom(),
                ));
            }
            i += 1;
        }
        assert(batch@.skip(i as int) =~= Seq::<ValidPath>::empty());
        batch.len() > 0 && self.cursor < self.target
    }

    /// Records what became of the pushes: what failed stays for the next time.
    pub fn finish(&mut self, results: &Vec<(String, bool)>)
        requires
            old(self).wf(),
        ensures
            final(self).wf(),
            final(self).cursor == old(self).cursor,
            final(self).failed@.dom() == still_failed(old(self).failed@.dom(), results@),
    {
        let mut i: usize = 0;
        let ghost before = self.failed@.dom();
        while i < results.len()
            invariant
                i <= results@.len(),
                self.wf(),
                self.cursor == old(self).cursor,
                self.failed@.dom() == still_failed(before, results@.take(i as int)),
            decreases results@.len() - i,
        {
            let ghost prior = self.failed@;
            assert(results@.take(i as int + 1).drop_last() =~= results@.take(i as int));
            if results[i].1 {
                let _ = self.failed.delete(results[i].0.as_str());
                assert(self.failed@.dom() =~= prior.dom().remove(results@[i as int].0@));
            } else {
                self.failed.put(results[i].0.clone());
                assert(self.failed@.dom() =~= prior.dom().insert(results@[i as int].0@));
            }
            i += 1;
        }
        assert(results@.take(i as int) =~= results@);
    }
}

/// The failed paths after `results`: what was pushed leaves, what failed
/// joins.
pub open spec fn still_failed(failed: Set<Seq<char>>, results: Seq<(String, bool)>) -> Set<
    Seq<char>,
>
    decreases results.len(),
{
    if results.len() == 0 {
        failed
    } else {
        let init = still_failed(failed, results.drop_last());
        if results.last().1 {
            init.remove(results.last().0@)
        } else {
            init.insert(results.last().0@)
        }
    }
}

/// A drain forgets no path: one that it was to push is pushed at the end, or
/// among those that failed.
pub proof fn drains_lose_nothing(failed: Set<Seq<char>>, results: Seq<(String, bool)>, i: int)
    requires
        0 <= i < results.len(),
    ensures
        still_failed(failed, results).contains(results[i].0@) || exists|k: int|
            i <= k < results.len() && (#[trigger] results[k]).0@ == results[i].0@ && results[k].1,
    decreases results.len(),
{
    let last = results.len() - 1;
    if i < last {
        let init = results.drop_last();
        drains_lose_nothing(failed, init, i);
        if !still_failed(failed, init).contains(init[i].0@) {
            let k = choose|k: int|
                i <= k < init.len() && (#[trigger] init[k]).0@ == init[i].0@ && init[k].1;
            assert(results[k] == init[k]);
        } else if results[last].1 && results[last].0@ == results[i].0@ {
            assert(results[last].0@ == results[i].0@);
        }
    } else {
        assert(results[i] == results.last());
    }
}

/// Of what is missing, the path itself: its dependencies became valid before
/// it, and were pushed then.
pub fn only(missing: Vec<PathInfo>, path: &str) -> (r: Vec<PathInfo>)
    ensures
        r@ == missing@.filter(|p: PathInfo| p.path@ == path@),
{
    let ghost wanted = |p: PathInfo| p.path@ == path@;
    let ghost all = missing@;
    let mut out: Vec<PathInfo> = Vec::new();
    proof {
        reveal(Seq::filter);
        assert(all.take(0).filter(wanted) =~= Seq::<PathInfo>::empty());
    }
    for p in it: missing
        invariant
            it.seq() == all,
            wanted == (|p: PathInfo| p.path@ == path@),
            out@ == all.take(it.index()).filter(wanted),
    {
        proof {
            let i = it.index();
            reveal(Seq::filter);
            assert(all.take(i + 1).drop_last() =~= all.take(i));
            assert(all.take(i + 1).last() == p);
        }
        if same(p.path.as_str(), path) {
            out.push(p);
        }
    }
    assert(all.take(all.len() as int) =~= all);
    out
}

/// What a push with failures is told.
pub fn failure_text(failed: usize) -> (r: String)
    ensures
        r@ == decimal(failed as nat) + " path(s) failed to push"@,
{
    show(failed as u64).concat(" path(s) failed to push")
}

/// `pattern` stands in `path` at `k`.
pub open spec fn stands_in(path: Seq<char>, pattern: Seq<char>, k: int) -> bool {
    0 <= k && k + pattern.len() <= path.len() && path.subrange(k, k + pattern.len()) == pattern
}

/// The path is a recipe.
pub open spec fn is_recipe(path: Seq<char>) -> bool {
    path.len() >= 4 && path.skip(path.len() - 4) == ".drv"@
}

/// A path is skipped if it is a recipe, if one of the patterns stands in it
/// anywhere, or if one of its signatures is by an upstream key, and for no other
/// reason; the first of these is the reason that is told.
pub proof fn paths_are_skipped_for_a_reason(
    filters: Filters,
    path: ValidPath,
    i: int,
    k: int,
    a: int,
    b: int,
)
    requires
        forall|n: int|
            0 <= n < filters.upstream_keys@.len() ==> !(#[trigger] filters.upstream_keys@[n])@.contains(
                ':',
            ),
    ensures
        is_recipe(path.path@) ==> filters.reason(path) == Some("drv"@),
        !is_recipe(path.path@) && 0 <= i < filters.exclude_patterns@.len() && stands_in(
            path.path@,
            filters.exclude_patterns@[i]@,
            k,
        ) ==> filters.reason(path) == Some("excluded"@),
        0 <= a < path.sigs@.len() && 0 <= b < filters.upstream_keys@.len() && is_by(
            path.sigs@[a]@,
            filters.upstream_keys@[b]@,
        ) ==> filters.reason(path) is Some,
        filters.reason(path) == Some("drv"@) ==> is_recipe(path.path@),
        filters.reason(path) == Some("excluded"@) ==> exists|n: int, m: int|
            0 <= n < filters.exclude_patterns@.len() && #[trigger] stands_in(
                path.path@,
                filters.exclude_patterns@[n]@,
                m,
            ),
        filters.reason(path) == Some("upstream"@) ==> exists|n: int, m: int|
            0 <= n < path.sigs@.len() && 0 <= m < filters.upstream_keys@.len() && is_by(
                (#[trigger] path.sigs@[n])@,
                (#[trigger] filters.upstream_keys@[m])@,
            ),
        filters.reason(path) matches Some(word) ==> word == "drv"@ || word == "excluded"@ || word
            == "upstream"@,
{
    reveal_strlit(".drv");
    reveal_strlit("drv");
    reveal_strlit("excluded");
    reveal_strlit("upstream");
    assert("excluded"@[0] != "upstream"@[0]);
    let p = path.path@;
    if is_recipe(p) {
        assert(".drv"@ =~= p.subrange(p.len() - 4, p.len() as int));
    }
    if ".drv"@.is_suffix_of(p) {
        assert(p.skip(p.len() - 4) =~= ".drv"@);
    }
    if 0 <= i < filters.exclude_patterns@.len() && stands_in(p, filters.exclude_patterns@[i]@, k) {
        assert(occurs(p, filters.exclude_patterns@[i]@));
    }
    if is_excluded(filters.exclude_patterns@, p) {
        let n = choose|n: int|
            0 <= n < filters.exclude_patterns@.len() && occurs(
                p,
                (#[trigger] filters.exclude_patterns@[n])@,
            );
        let q = filters.exclude_patterns@[n]@;
        let m = choose|m: int|
            0 <= m && m + q.len() <= p.len() && #[trigger] p.subrange(m, m + q.len()) == q;
        assert(stands_in(p, q, m));
    }
    let sigs = texts(path.sigs@);
    let keys = texts(filters.upstream_keys@);
    assert forall|n: int| 0 <= n < keys.len() implies !(#[trigger] keys[n]).contains(':') by {
        assert(!filters.upstream_keys@[n]@.contains(':'));
    }
    upstream_is_told_by_key_names(sigs, keys, a, b);
    if is_upstream(sigs, keys) {
        let (n, m) = choose|n: int, m: int|
            0 <= n < sigs.len() && 0 <= m < keys.len() && is_by(
                #[trigger] sigs[n],
                #[trigger] keys[m],
            );
        assert(is_by(path.sigs@[n]@, filters.upstream_keys@[m]@));
    }
}

/// Of a batch everything up to the target is taken, and nothing from the first
/// path on that is newer.
pub proof fn batches_are_taken_up_to_the_target(batch: Seq<ValidPath>, target: i64, i: int)
    ensures
        within(batch, target) <= batch.len(),
        0 <= i < within(batch, target) ==> batch[i].id <= target,
        within(batch, target) < batch.len() ==> batch[within(batch, target) as int].id > target,
    decreases batch.len(),
{
    if batch.len() > 0 && batch[0].id <= target {
        let rest = batch.skip(1);
        batches_are_taken_up_to_the_target(rest, target, i - 1);
        if within(rest, target) < rest.len() {
            assert(rest[within(rest, target) as int] == batch[within(batch, target) as int]);
        }
        if 0 < i < within(batch, target) {
            assert(rest[i - 1] == batch[i]);
        }
    }
}

/// A path that no filter skips and that did not fail before is pushed, and no
/// other.
pub proof fn new_paths_are_pushed(
    batch: Seq<ValidPath>,
    filters: Filters,
    failed: Set<Seq<char>>,
    i: int,
    p: Seq<char>,
)
    ensures
        0 <= i < batch.len() && filters.reason(batch[i]) is None && !failed.contains(
            batch[i].path@,
        ) ==> to_push(batch, filters, failed).contains(batch[i].path@),
        to_push(batch, filters, failed).contains(p) ==> !failed.contains(p) && exists|j: int|
            0 <= j < batch.len() && (#[trigger] batch[j]).path@ == p && filters.reason(batch[j]) is None,
    decreases batch.len(),
{
    if batch.len() > 0 {
        let init = batch.drop_last();
        let last = batch.last();
        let before = to_push(init, filters, failed);
        let all = to_push(batch, filters, failed);
        new_paths_are_pushed(init, filters, failed, i, p);
        if 0 <= i < batch.len() && filters.reason(batch[i]) is None && !failed.contains(
            batch[i].path@,
        ) {
            if i < init.len() {
                assert(init[i] == batch[i]);
                let k = before.index_of(batch[i].path@);
                assert(all[k] == batch[i].path@);
            } else {
                assert(all[before.len() as int] == last.path@);
            }
        }
        if all.contains(p) {
            let k = all.index_of(p);
            if k < before.len() {
                assert(before[k] == p);
                let j = choose|j: int|
                    0 <= j < init.len() && (#[trigger] init[j]).path@ == p && filters.reason(
                        init[j],
                    ) is None;
                assert(batch[j] == init[j]);
            } else {
                assert(batch[batch.len() - 1].path@ == p);
            }
        }
    }
}

/// The last that was heard of a path says whether it has failed; of one that
/// nothing was heard of, what was known before.
pub proof fn the_last_result_counts(
    failed: Set<Seq<char>>,
    results: Seq<(String, bool)>,
    i: int,
    p: Seq<char>,
)
    ensures
        0 <= i < results.len() && results[i].0@ == p && (forall|k: int|
            i < k < results.len() ==> (#[trigger] results[k]).0@ != p) ==> (still_failed(
            failed,
            results,
        ).contains(p) <==> !results[i].1),
        (forall|k: int| 0 <= k < results.len() ==> (#[trigger] results[k]).0@ != p) ==> (
        still_failed(failed, results).contains(p) <==> failed.contains(p)),
    decreases results.len(),
{
    if results.len() > 0 {
        let init = results.drop_last();
        let last = results.len() - 1;
        the_last_result_counts(failed, init, i, p);
        if forall|k: int| 0 <= k < results.len() ==> (#[trigger] results[k]).0@ != p {
            assert(results[last].0@ != p);
            assert forall|k: int| 0 <= k < init.len() implies (#[trigger] init[k]).0@ != p by {
                assert(results[k].0@ != p);
            }
        }
        if 0 <= i < last && results[i].0@ == p && (forall|k: int|
            i < k < results.len() ==> (#[trigger] results[k]).0@ != p) {
            assert(results[last].0@ != p);
            assert(init[i] == results[i]);
            assert forall|k: int| i < k < init.len() implies (#[trigger] init[k]).0@ != p by {
                assert(results[k].0@ != p);
            }
        }
    }
}

/// A part without a slash begins behind the slash in front of it.
proof fn part_begins(path: Seq<char>, start: int, from: int, end: int)
    requires
        0 <= start <= from <= end <= path.len(),
        from == start || path[from - 1] == '/',
        forall|k: int| from <= k < end ==> path[k] != '/',
    ensures
        part_from(path, start, end) == from,
    decreases end - from,
{
    if from < end {
        part_begins(path, start, from, end - 1);
    }
}

/// A part that does not end in a slash holds something.
proof fn part_holds(path: Seq<char>, start: int, end: int)
    requires
        0 <= start < end <= path.len(),
        path[end - 1] != '/',
    ensures
        start <= part_from(path, start, end) < end,
    decreases end - start,
{
    assert(part_from(path, start, end) == part_from(path, start, end - 1));
    if start < end - 1 && path[end - 2] != '/' {
        part_holds(path, start, end - 1);
    } else {
        assert(part_from(path, start, end - 1) == end - 1);
    }
}

/// The list of failed paths stands beside the cursor: in its directory, under its
/// name with the ending behind it.
pub proof fn failed_paths_stand_beside_the_cursor(
    dir: Seq<char>,
    name: Seq<char>,
    suffix: Seq<char>,
)
    requires
        dir.len() > 0,
        dir.last() != '/',
        dir.last() != '.',
        name.len() > 0,
        !name.contains('/'),
        name.last() != '.',
        name[0] != '/',
    ensures
        beside(dir + seq!['/'] + name, suffix) == dir + seq!['/'] + name + suffix,
{
    reveal_strlit(".");
    reveal_strlit("..");
    reveal_strlit("/");
    let path = dir + seq!['/'] + name;
    let n = path.len() as int;
    let d = dir.len() as int;
    let start = path_start(path);
    assert(path[d] == '/');
    assert(path[d - 1] == dir.last());
    assert(path[n - 1] == name.last());
    assert(start == 1 ==> d >= 2) by {
        if start == 1 && d == 1 {
            assert(path[0] == dir[0]);
        }
    }
    assert forall|k: int| d + 1 <= k < n implies path[k] != '/' by {
        assert(path[k] == name[k - d - 1]);
        assert(name.contains(path[k]));
    }
    part_begins(path, start, d + 1, n);
    let last = path.subrange(d + 1, n);
    assert(last =~= name);
    assert(last != "."@ && last != ".."@) by {
        assert(last.last() != '.');
        assert("."@.last() == '.' && ".."@.last() == '.');
    }
    assert(parts_end(path, start, n) == n);
    part_holds(path, start, d);
    let before = part_from(path, start, d);
    assert(path.subrange(before, d) != "."@) by {
        assert(path.subrange(before, d).last() == path[d - 1]);
        assert("."@.last() == '.');
    }
    assert(parts_end(path, start, d) == d);
    assert(path.take(d) =~= dir);
    assert(in_dir(dir, name + suffix) =~= dir + seq!['/'] + name + suffix);
}

/// What is to be pushed grows by each new path that no filter skips and that did
/// not fail before, in the order in which they come; a path has as many tries as
/// are counted for it.
pub proof fn paths_are_pushed_in_order(
    batch: Seq<ValidPath>,
    filters: Filters,
    failed: Set<Seq<char>>,
    path: ValidPath,
    state: WatchState,
    p: Seq<char>,
)
    ensures
        filters.reason(path) is None && !failed.contains(path.path@) ==> to_push(
            batch.push(path),
            filters,
            failed,
        ) == to_push(batch, filters, failed).push(path.path@),
        filters.reason(path) is Some || failed.contains(path.path@) ==> to_push(
            batch.push(path),
            filters,
            failed,
        ) == to_push(batch, filters, failed),
        to_push(Seq::empty(), filters, failed).len() == 0,
        state.attempts@.dom().contains(p) ==> state.tries(p) == state.attempts@[p].1,
        !state.attempts@.dom().contains(p) ==> state.tries(p) == 0,
{
    assert(batch.push(path).drop_last() =~= batch);
}

/// Beside a file without a directory, and beside one in the root, stands one in
/// the same place.
pub proof fn failed_paths_stand_beside_bare_cursors(name: Seq<char>, suffix: Seq<char>)
    requires
        name.len() > 0,
        !name.contains('/'),
        name.last() != '.',
        name[0] != '.',
    ensures
        beside(name, suffix) == name + suffix,
        beside(seq!['/'] + name, suffix) == seq!['/'] + name + suffix,
{
    reveal_strlit(".");
    reveal_strlit("..");
    reveal_strlit("/");
    let n = name.len() as int;
    assert forall|k: int| 0 <= k < n implies name[k] != '/' by {
        assert(name.contains(name[k]));
    }
    assert(name != "."@ && name != ".."@) by {
        assert("."@.last() == '.' && ".."@.last() == '.');
    }
    part_begins(name, 0, 0, n);
    assert(name.subrange(0, n) =~= name);
    assert(parts_end(name, 0, n) == n);
    assert(parts_end(name, 0, 0) == 0);
    assert(name.take(0) =~= Seq::<char>::empty());
    assert(in_dir(Seq::<char>::empty(), name + suffix) =~= name + suffix);
    let path = seq!['/'] + name;
    assert(path_start(path) == 1);
    assert forall|k: int| 1 <= k < n + 1 implies path[k] != '/' by {
        assert(path[k] == name[k - 1]);
    }
    part_begins(path, 1, 1, n + 1);
    assert(path.subrange(1, n + 1) =~= name);
    assert(parts_end(path, 1, n + 1) == n + 1);
    assert(parts_end(path, 1, 1) == 1);
    assert(path.take(1) =~= seq!['/']);
    assert(in_dir(seq!['/'], name + suffix) =~= path + suffix);
}

} // verus!
