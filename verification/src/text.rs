//! Strings as sequences of characters: the comparisons, searches and splits
//! that the rest of the library is written in.

use vstd::prelude::*;
use vstd::std_specs::iter::IteratorSpec;
use vstd::string::*;

verus! {

/// `String::push`: appends one character.
pub assume_specification[ String::push ](s: &mut String, c: char)
    ensures
        final(s)@ == old(s)@.push(c),
;

/// What a list of strings holds.
pub open spec fn texts(v: Seq<String>) -> Seq<Seq<char>> {
    v.map_values(|s: String| s@)
}

/// What an optional string holds.
pub open spec fn opt_text(v: Option<String>) -> Option<Seq<char>> {
    match v {
        Some(s) => Some(s@),
        None => None,
    }
}

/// What an optional string slice holds.
pub open spec fn opt_str(v: Option<&str>) -> Option<Seq<char>> {
    match v {
        Some(s) => Some(s@),
        None => None,
    }
}

/// The characters of `s`, in order.
pub fn to_chars(s: &str) -> (r: Vec<char>)
    ensures
        r@ == s@,
{
    let mut out: Vec<char> = Vec::new();
    let mut it = s.chars();
    loop
        invariant
            out@ + it.remaining() == s@,
            it.obeys_prophetic_iter_laws(),
            it.decrease() is Some,
        ensures
            out@ == s@,
        decreases it.decrease()->0,
    {
        let ghost before = it.remaining();
        match it.next() {
            Some(c) => {
                out.push(c);
                assert(before =~= seq![c] + it.remaining());
            },
            None => {
                break;
            },
        }
    }
    out
}

/// The string that holds `chars[from..to]`.
pub fn from_range(chars: &Vec<char>, from: usize, to: usize) -> (r: String)
    requires
        from <= to <= chars@.len(),
    ensures
        r@ == chars@.subrange(from as int, to as int),
{
    let mut out = String::new();
    let mut i: usize = from;
    while i < to
        invariant
            from <= i <= to <= chars@.len(),
            out@ == chars@.subrange(from as int, i as int),
        decreases to - i,
    {
        out.push(chars[i]);
        i += 1;
    }
    out
}

/// Whether two strings hold the same characters.
pub fn same(a: &str, b: &str) -> (r: bool)
    ensures
        r == (a@ == b@),
{
    let mut x = a.chars();
    let mut y = b.chars();
    let ghost mut done: Seq<char> = Seq::empty();
    loop
        invariant
            a@ == done + x.remaining(),
            b@ == done + y.remaining(),
            x.obeys_prophetic_iter_laws(),
            x.decrease() is Some,
            y.obeys_prophetic_iter_laws(),
        decreases x.decrease()->0,
    {
        let ghost xs = x.remaining();
        let ghost ys = y.remaining();
        let p = x.next();
        let q = y.next();
        match (p, q) {
            (Some(c), Some(d)) => {
                if c != d {
                    assert(a@[done.len() as int] == c);
                    assert(b@[done.len() as int] == d);
                    return false;
                }
                proof {
                    done = done.push(c);
                    assert(a@ =~= done + x.remaining());
                    assert(b@ =~= done + y.remaining());
                }
            },
            (None, None) => {
                return true;
            },
            (Some(_), None) => {
                assert(a@.len() > b@.len());
                return false;
            },
            (None, Some(_)) => {
                assert(a@.len() < b@.len());
                return false;
            },
        }
    }
}

/// `a` comes before `b` in the order of their characters, a prefix first.
pub open spec fn text_lt(a: Seq<char>, b: Seq<char>) -> bool
    decreases a.len(),
{
    if b.len() == 0 {
        false
    } else if a.len() == 0 {
        true
    } else if a[0] != b[0] {
        a[0] < b[0]
    } else {
        text_lt(a.drop_first(), b.drop_first())
    }
}

/// `a` is `b` or comes before it.
pub open spec fn text_le(a: Seq<char>, b: Seq<char>) -> bool {
    !text_lt(b, a)
}

/// No string comes before itself.
pub proof fn text_lt_irreflexive(a: Seq<char>)
    ensures
        !text_lt(a, a),
    decreases a.len(),
{
    if a.len() > 0 {
        text_lt_irreflexive(a.drop_first());
    }
}

/// The order of strings is transitive.
pub proof fn text_lt_transitive(a: Seq<char>, b: Seq<char>, c: Seq<char>)
    requires
        text_lt(a, b),
        text_lt(b, c),
    ensures
        text_lt(a, c),
    decreases a.len(),
{
    if a.len() > 0 && a[0] == b[0] && b[0] == c[0] {
        text_lt_transitive(a.drop_first(), b.drop_first(), c.drop_first());
    }
}

/// Of two different strings one comes before the other, and only one.
pub proof fn text_lt_total(a: Seq<char>, b: Seq<char>)
    ensures
        a != b ==> (text_lt(a, b) || text_lt(b, a)),
        !(text_lt(a, b) && text_lt(b, a)),
    decreases a.len(),
{
    if a.len() > 0 && b.len() > 0 {
        if a[0] == b[0] {
            text_lt_total(a.drop_first(), b.drop_first());
            if a != b {
                assert(a.drop_first() != b.drop_first()) by {
                    if a.drop_first() == b.drop_first() {
                        assert(a =~= seq![a[0]] + a.drop_first());
                        assert(b =~= seq![b[0]] + b.drop_first());
                    }
                }
            }
        }
    } else if a.len() == 0 && b.len() == 0 {
        assert(a =~= b);
    }
}

/// The first character in which two strings differ decides which comes first,
/// and of two of which one is the beginning of the other, the shorter does.
pub proof fn the_first_difference_decides(a: Seq<char>, b: Seq<char>, n: int)
    requires
        0 <= n <= a.len(),
        n <= b.len(),
        a.take(n) == b.take(n),
        n < a.len() && n < b.len() ==> a[n] != b[n],
    ensures
        n < a.len() && n < b.len() ==> text_lt(a, b) == (a[n] < b[n]),
        n == a.len() && n < b.len() ==> text_lt(a, b),
        n == b.len() ==> !text_lt(a, b),
    decreases n,
{
    if n > 0 {
        assert(a[0] == a.take(n)[0] && b[0] == b.take(n)[0]);
        let x = a.drop_first();
        let y = b.drop_first();
        assert(x.take(n - 1) =~= a.take(n).drop_first());
        assert(y.take(n - 1) =~= b.take(n).drop_first());
        the_first_difference_decides(x, y, n - 1);
    }
}

/// What does not come behind another is the same or comes before it.
pub proof fn not_behind_is_before_or_same(a: Seq<char>, b: Seq<char>)
    ensures
        text_le(a, b) <==> a == b || text_lt(a, b),
{
    text_lt_total(a, b);
    text_lt_irreflexive(a);
}

/// Whether `a` comes before `b`.
pub fn less(a: &str, b: &str) -> (r: bool)
    ensures
        r == text_lt(a@, b@),
{
    let mut x = a.chars();
    let mut y = b.chars();
    loop
        invariant
            text_lt(a@, b@) == text_lt(x.remaining(), y.remaining()),
            x.obeys_prophetic_iter_laws(),
            x.decrease() is Some,
            y.obeys_prophetic_iter_laws(),
        decreases x.decrease()->0,
    {
        let p = x.next();
        let q = y.next();
        match (p, q) {
            (Some(c), Some(d)) => {
                if c != d {
                    return c < d;
                }
            },
            (_, None) => {
                return false;
            },
            (None, Some(_)) => {
                return true;
            },
        }
    }
}

/// Whether `p` stands in `a` at `from`.
fn stands_at(a: &Vec<char>, from: usize, p: &Vec<char>) -> (r: bool)
    requires
        from + p@.len() <= a@.len(),
    ensures
        r == (a@.subrange(from as int, from + p@.len()) == p@),
{
    let room: usize = a.len();
    let mut i: usize = 0;
    while i < p.len()
        invariant
            i <= p@.len(),
            room == a@.len(),
            from + p@.len() <= a@.len(),
            forall|k: int| 0 <= k < i ==> a@[from + k] == #[trigger] p@[k],
        decreases p@.len() - i,
    {
        if a[from + i] != p[i] {
            assert(a@.subrange(from as int, from + p@.len())[i as int] != p@[i as int]);
            return false;
        }
        i += 1;
    }
    assert(a@.subrange(from as int, from + p@.len()) =~= p@);
    true
}

/// Whether `s` begins with `p`.
pub fn starts_with(s: &str, p: &str) -> (r: bool)
    ensures
        r == p@.is_prefix_of(s@),
{
    let a = to_chars(s);
    let b = to_chars(p);
    if b.len() > a.len() {
        return false;
    }
    stands_at(&a, 0, &b)
}

/// Whether `s` ends with `p`.
pub fn ends_with(s: &str, p: &str) -> (r: bool)
    ensures
        r == p@.is_suffix_of(s@),
{
    let a = to_chars(s);
    let b = to_chars(p);
    if b.len() > a.len() {
        return false;
    }
    stands_at(&a, a.len() - b.len(), &b)
}

/// What is left of `s` behind `p`.
pub open spec fn after_prefix(s: Seq<char>, p: Seq<char>) -> Option<Seq<char>> {
    if p.is_prefix_of(s) {
        Some(s.skip(p.len() as int))
    } else {
        None
    }
}

/// What is left of `s` in front of `p`.
pub open spec fn before_suffix(s: Seq<char>, p: Seq<char>) -> Option<Seq<char>> {
    if p.is_suffix_of(s) {
        Some(s.take(s.len() - p.len()))
    } else {
        None
    }
}

/// `s` without the prefix `p`, if it begins with it.
pub fn strip_prefix<'a>(s: &'a str, p: &str) -> (r: Option<&'a str>)
    ensures
        opt_str(r) == after_prefix(s@, p@),
{
    if starts_with(s, p) {
        let r = s.substring_char(p.unicode_len(), s.unicode_len());
        assert(r@ =~= s@.skip(p@.len() as int));
        Some(r)
    } else {
        None
    }
}

/// `s` without the suffix `p`, if it ends with it.
pub fn strip_suffix<'a>(s: &'a str, p: &str) -> (r: Option<&'a str>)
    ensures
        opt_str(r) == before_suffix(s@, p@),
{
    if ends_with(s, p) {
        let r = s.substring_char(0, s.unicode_len() - p.unicode_len());
        assert(r@ =~= s@.take(s@.len() - p@.len()));
        Some(r)
    } else {
        None
    }
}

/// `n` stands somewhere in `s`.
pub open spec fn occurs(s: Seq<char>, n: Seq<char>) -> bool {
    exists|i: int| 0 <= i <= s.len() - n.len() && #[trigger] s.subrange(i, i + n.len()) == n
}

/// Whether `n` stands somewhere in `s`.
pub fn contains(s: &str, n: &str) -> (r: bool)
    ensures
        r == occurs(s@, n@),
{
    let a = to_chars(s);
    let b = to_chars(n);
    if b.len() > a.len() {
        return false;
    }
    let last: usize = a.len() - b.len();
    let mut i: usize = 0;
    loop
        invariant
            a@ == s@,
            b@ == n@,
            last == a@.len() - b@.len(),
            i <= last,
            forall|k: int| 0 <= k < i ==> #[trigger] s@.subrange(k, k + n@.len()) != n@,
        decreases last - i,
    {
        if stands_at(&a, i, &b) {
            assert(s@.subrange(i as int, i + n@.len()) == n@);
            return true;
        }
        if i == last {
            return false;
        }
        i += 1;
    }
}

/// The first position of `c` in `s`, or the length of `s`.
pub open spec fn first_of(s: Seq<char>, c: char) -> int
    decreases s.len(),
{
    if s.len() == 0 {
        0
    } else if s[0] == c {
        0
    } else {
        1 + first_of(s.drop_first(), c)
    }
}

/// What [`first_of`] finds.
pub proof fn first_of_finds(s: Seq<char>, c: char)
    ensures
        0 <= first_of(s, c) <= s.len(),
        forall|k: int| 0 <= k < first_of(s, c) ==> s[k] != c,
        first_of(s, c) < s.len() ==> s[first_of(s, c)] == c,
    decreases s.len(),
{
    if s.len() > 0 && s[0] != c {
        let t = s.drop_first();
        first_of_finds(t, c);
        assert forall|k: int| 0 <= k < first_of(s, c) implies s[k] != c by {
            if k > 0 {
                assert(t[k - 1] == s[k]);
            }
        }
        if first_of(s, c) < s.len() {
            assert(t[first_of(t, c)] == s[first_of(s, c)]);
        }
    }
}

/// The position that [`first_of`] finds is the only one with its properties.
pub proof fn first_of_is(s: Seq<char>, c: char, i: int)
    requires
        0 <= i <= s.len(),
        forall|k: int| 0 <= k < i ==> s[k] != c,
        i < s.len() ==> s[i] == c,
    ensures
        first_of(s, c) == i,
{
    first_of_finds(s, c);
    let f = first_of(s, c);
    if f < i {
        assert(s[f] != c);
    } else if i < f {
        assert(s[i] != c);
    }
}

/// The first position of `c` in `s`, or the length of `s`.
pub fn find_char(s: &Vec<char>, c: char) -> (r: usize)
    ensures
        r == first_of(s@, c),
        r <= s@.len(),
{
    let mut i: usize = 0;
    while i < s.len() && s[i] != c
        invariant
            i <= s@.len(),
            forall|k: int| 0 <= k < i ==> s@[k] != c,
        decreases s@.len() - i,
    {
        i += 1;
    }
    proof {
        first_of_is(s@, c, i as int);
    }
    i
}

/// What stands before and behind the first `c` of `s`.
pub open spec fn cut_at(s: Seq<char>, c: char) -> Option<(Seq<char>, Seq<char>)> {
    let i = first_of(s, c);
    if i < s.len() {
        Some((s.take(i), s.skip(i + 1)))
    } else {
        None
    }
}

/// What a pair of strings holds.
pub open spec fn opt_pair(v: Option<(&str, &str)>) -> Option<(Seq<char>, Seq<char>)> {
    match v {
        Some(p) => Some((p.0@, p.1@)),
        None => None,
    }
}

/// What stands before and behind the first `c` of `s`, if there is one.
pub fn split_once<'a>(s: &'a str, c: char) -> (r: Option<(&'a str, &'a str)>)
    ensures
        opt_pair(r) == cut_at(s@, c),
{
    let a = to_chars(s);
    let i = find_char(&a, c);
    if i < a.len() {
        let head = s.substring_char(0, i);
        let tail = s.substring_char(i + 1, a.len());
        assert(head@ =~= s@.take(i as int));
        assert(tail@ =~= s@.skip(i + 1));
        Some((head, tail))
    } else {
        None
    }
}

/// `c` is white space.
pub open spec fn white(c: char) -> bool {
    ||| '\u{9}' <= c && c <= '\u{d}'
    ||| c == ' '
    ||| c == '\u{85}'
    ||| c == '\u{a0}'
    ||| c == '\u{1680}'
    ||| '\u{2000}' <= c && c <= '\u{200a}'
    ||| c == '\u{2028}'
    ||| c == '\u{2029}'
    ||| c == '\u{202f}'
    ||| c == '\u{205f}'
    ||| c == '\u{3000}'
}

/// Whether `c` is white space.
pub fn is_white(c: char) -> (r: bool)
    ensures
        r == white(c),
{
    (c >= '\u{9}' && c <= '\u{d}') || c == ' ' || c == '\u{85}' || c == '\u{a0}' || c == '\u{1680}'
        || (c >= '\u{2000}' && c <= '\u{200a}') || c == '\u{2028}' || c == '\u{2029}'
        || c == '\u{202f}' || c == '\u{205f}' || c == '\u{3000}'
}

/// `s` without the white space in front.
pub open spec fn trim_front(s: Seq<char>) -> Seq<char>
    decreases s.len(),
{
    if s.len() > 0 && white(s[0]) {
        trim_front(s.drop_first())
    } else {
        s
    }
}

/// `s` without the white space at its end.
pub open spec fn trim_back(s: Seq<char>) -> Seq<char>
    decreases s.len(),
{
    if s.len() > 0 && white(s.last()) {
        trim_back(s.drop_last())
    } else {
        s
    }
}

/// `s` without the white space around it.
pub open spec fn trimmed(s: Seq<char>) -> Seq<char> {
    trim_back(trim_front(s))
}

/// `s` without the white space around it.
pub fn trim(s: &str) -> (r: &str)
    ensures
        r@ == trimmed(s@),
{
    let chars = to_chars(s);
    let mut from: usize = 0;
    assert(chars@.skip(0) =~= s@);
    while from < chars.len() && is_white(chars[from])
        invariant
            from <= chars@.len(),
            trim_front(s@) == trim_front(chars@.skip(from as int)),
        decreases chars@.len() - from,
    {
        assert(chars@.skip(from as int).drop_first() =~= chars@.skip(from + 1));
        from += 1;
    }
    let ghost front = chars@.skip(from as int);
    let mut to: usize = chars.len();
    assert(chars@.subrange(from as int, to as int) =~= front);
    while to > from && is_white(chars[to - 1])
        invariant
            from <= to <= chars@.len(),
            trim_back(front) == trim_back(chars@.subrange(from as int, to as int)),
        decreases to,
    {
        assert(chars@.subrange(from as int, to as int).drop_last() =~= chars@.subrange(
            from as int,
            to - 1,
        ));
        to -= 1;
    }
    s.substring_char(from, to)
}

/// The strings of `parts`, with `sep` between any two.
pub open spec fn joined(parts: Seq<Seq<char>>, sep: Seq<char>) -> Seq<char>
    decreases parts.len(),
{
    if parts.len() == 0 {
        Seq::empty()
    } else if parts.len() == 1 {
        parts[0]
    } else {
        joined(parts.drop_last(), sep) + sep + parts.last()
    }
}

/// What stands in `s` in front of, between and behind the characters `c`.
pub open spec fn pieces(s: Seq<char>, c: char) -> Seq<Seq<char>>
    decreases s.len(),
{
    let k = first_of(s, c);
    if 0 <= k < s.len() {
        seq![s.take(k)] + pieces(s.skip(k + 1), c)
    } else {
        seq![s]
    }
}

/// A piece and what stands behind it.
proof fn first_piece(a: Seq<char>, c: char, rest: Seq<char>)
    requires
        forall|k: int| 0 <= k < a.len() ==> a[k] != c,
    ensures
        pieces(a + seq![c] + rest, c) == seq![a] + pieces(rest, c),
{
    let s = a + seq![c] + rest;
    let n = a.len() as int;
    assert(s[n] == c);
    assert forall|k: int| 0 <= k < n implies s[k] != c by {
        assert(s[k] == a[k]);
    }
    first_of_is(s, c, n);
    assert(s.take(n) =~= a);
    assert(s.skip(n + 1) =~= rest);
}

/// Strings that were joined come apart at the separator as they were, where
/// none of them holds it.
pub proof fn joined_texts_come_apart(parts: Seq<Seq<char>>, c: char)
    requires
        parts.len() > 0,
        forall|i: int, k: int|
            0 <= i < parts.len() && 0 <= k < parts[i].len() ==> #[trigger] parts[i][k] != c,
    ensures
        pieces(joined(parts, seq![c]), c) == parts,
    decreases parts.len(),
{
    if parts.len() == 1 {
        let a = parts[0];
        assert forall|k: int| 0 <= k < a.len() implies a[k] != c by {
            assert(parts[0][k] != c);
        }
        first_of_is(a, c, a.len() as int);
        assert(pieces(a, c) =~= parts);
    } else {
        joined_from_the_front(parts, seq![c]);
        let rest = parts.drop_first();
        assert forall|i: int, k: int|
            0 <= i < rest.len() && 0 <= k < rest[i].len() implies #[trigger] rest[i][k] != c by {
            assert(parts[i + 1][k] != c);
        }
        joined_texts_come_apart(rest, c);
        assert forall|k: int| 0 <= k < parts[0].len() implies parts[0][k] != c by {}
        first_piece(parts[0], c, joined(rest, seq![c]));
        assert(seq![parts[0]] + rest =~= parts);
    }
}

/// The first of the strings stands at the front of what they were joined to.
proof fn joined_from_the_front(parts: Seq<Seq<char>>, sep: Seq<char>)
    requires
        parts.len() > 1,
    ensures
        joined(parts, sep) == parts[0] + sep + joined(parts.drop_first(), sep),
    decreases parts.len(),
{
    let rest = parts.drop_first();
    if parts.len() == 2 {
        assert(parts.drop_last() =~= seq![parts[0]]);
        assert(rest =~= seq![parts[1]]);
        assert(joined(seq![parts[0]], sep) == parts[0]);
    } else {
        joined_from_the_front(parts.drop_last(), sep);
        assert(parts.drop_last().drop_first() =~= rest.drop_last());
        assert(joined(parts, sep) =~= parts[0] + sep + joined(rest, sep));
    }
}

/// The strings of `parts`, with `sep` between any two.
pub fn join(parts: &Vec<String>, sep: &str) -> (r: String)
    ensures
        r@ == joined(texts(parts@), sep@),
{
    let mut out = String::new();
    let mut i: usize = 0;
    assert(texts(parts@).take(0) =~= Seq::<Seq<char>>::empty());
    while i < parts.len()
        invariant
            i <= parts@.len(),
            out@ == joined(texts(parts@).take(i as int), sep@),
        decreases parts@.len() - i,
    {
        let ghost all = texts(parts@);
        if i > 0 {
            out.append(sep);
        }
        out.append(parts[i].as_str());
        proof {
            let next = all.take(i as int + 1);
            assert(next.drop_last() =~= all.take(i as int));
            assert(next.last() == parts@[i as int]@);
            if i == 0 {
                assert(out@ =~= next[0]);
            }
        }
        i += 1;
    }
    assert(texts(parts@).take(i as int) =~= texts(parts@));
    out
}

/// `s` without the white space at its end.
pub fn trim_end(s: &str) -> (r: &str)
    ensures
        r@ == trim_back(s@),
{
    let chars = to_chars(s);
    let mut to: usize = chars.len();
    assert(s@.take(to as int) =~= s@);
    while to > 0 && is_white(chars[to - 1])
        invariant
            to <= chars@.len(),
            chars@ == s@,
            trim_back(s@) == trim_back(s@.take(to as int)),
        decreases to,
    {
        assert(s@.take(to as int).drop_last() =~= s@.take(to - 1));
        to -= 1;
    }
    let r = s.substring_char(0, to);
    assert(r@ =~= s@.take(to as int));
    r
}

/// Whether a list holds a text.
pub fn lists(names: &Vec<String>, name: &str) -> (r: bool)
    ensures
        r == texts(names@).contains(name@),
{
    let mut i: usize = 0;
    while i < names.len()
        invariant
            i <= names@.len(),
            forall|k: int| 0 <= k < i ==> (#[trigger] names@[k])@ != name@,
        decreases names@.len() - i,
    {
        if same(names[i].as_str(), name) {
            assert(texts(names@)[i as int] == name@);
            return true;
        }
        i += 1;
    }
    assert forall|k: int| 0 <= k < texts(names@).len() implies texts(names@)[k] != name@ by {
        assert(names@[k]@ != name@);
    }
    false
}

/// Whether two lists hold the same texts.
pub fn same_texts(a: &Vec<String>, b: &Vec<String>) -> (r: bool)
    ensures
        r == (texts(a@) == texts(b@)),
{
    if a.len() != b.len() {
        assert(texts(a@).len() != texts(b@).len());
        return false;
    }
    let mut i: usize = 0;
    while i < a.len()
        invariant
            i <= a@.len() == b@.len(),
            forall|k: int| 0 <= k < i ==> (#[trigger] a@[k])@ == b@[k]@,
        decreases a@.len() - i,
    {
        if !same(a[i].as_str(), b[i].as_str()) {
            assert(texts(a@)[i as int] != texts(b@)[i as int]);
            return false;
        }
        i += 1;
    }
    assert(texts(a@) =~= texts(b@));
    true
}

/// What stands behind the last `c` of `s`, or all of `s` where there is none.
pub open spec fn after_last(s: Seq<char>, c: char) -> Seq<char>
    decreases s.len(),
{
    if s.len() == 0 || s.last() == c {
        Seq::empty()
    } else {
        after_last(s.drop_last(), c).push(s.last())
    }
}

/// What stands behind the last `c` of `s`, or all of `s` where there is none.
pub fn last_segment(s: &str, c: char) -> (r: &str)
    ensures
        r@ == after_last(s@, c),
{
    let chars = to_chars(s);
    let n: usize = chars.len();
    let mut from: usize = n;
    assert(s@.take(n as int) =~= s@);
    assert(s@.subrange(n as int, n as int) =~= Seq::<char>::empty());
    assert(after_last(s@, c) =~= after_last(s@.take(n as int), c) + s@.subrange(
        from as int,
        n as int,
    ));
    while from > 0 && chars[from - 1] != c
        invariant
            from <= n,
            n == chars@.len(),
            chars@ == s@,
            after_last(s@, c) == after_last(s@.take(from as int), c) + s@.subrange(
                from as int,
                n as int,
            ),
        decreases from,
    {
        let ghost head = s@.take(from as int);
        assert(head.drop_last() =~= s@.take(from - 1));
        assert(after_last(head, c) =~= after_last(head.drop_last(), c).push(head.last()));
        assert(after_last(head, c) + s@.subrange(from as int, n as int) =~= after_last(
            s@.take(from - 1),
            c,
        ) + s@.subrange(from - 1, n as int));
        from -= 1;
    }
    assert(after_last(s@.take(from as int), c) =~= Seq::<char>::empty());
    let r = s.substring_char(from, n);
    assert(r@ =~= after_last(s@, c));
    r
}

/// How many characters stand in front of the first white space of `s`.
pub open spec fn word_len(s: Seq<char>) -> nat
    decreases s.len(),
{
    if s.len() == 0 || white(s[0]) {
        0
    } else {
        1 + word_len(s.skip(1))
    }
}

/// A word is no longer than what it stands in.
pub proof fn word_fits(s: Seq<char>)
    ensures
        word_len(s) <= s.len(),
        s.len() > 0 && !white(s[0]) ==> word_len(s) > 0,
    decreases s.len(),
{
    if s.len() > 0 && !white(s[0]) {
        word_fits(s.skip(1));
    }
}

/// What `trim_front` leaves is no longer, and begins with no white space.
pub proof fn trim_front_fits(s: Seq<char>)
    ensures
        trim_front(s).len() <= s.len(),
        trim_front(s).len() > 0 ==> !white(trim_front(s)[0]),
        trim_front(s) == s.skip(s.len() - trim_front(s).len()),
    decreases s.len(),
{
    if s.len() > 0 && white(s[0]) {
        trim_front_fits(s.skip(1));
        assert(s.skip(1).skip(s.skip(1).len() - trim_front(s.skip(1)).len()) =~= s.skip(
            s.len() - trim_front(s).len(),
        ));
    } else {
        assert(s.skip(0) =~= s);
    }
}

/// The words of `s`: what white space separates.
pub open spec fn words_of(s: Seq<char>) -> Seq<Seq<char>>
    decreases s.len(),
{
    let t = trim_front(s);
    if t.len() == 0 {
        Seq::empty()
    } else {
        proof {
            trim_front_fits(s);
            word_fits(t);
        }
        seq![t.take(word_len(t) as int)] + words_of(t.skip(word_len(t) as int))
    }
}

/// The words of `s`: what white space separates.
pub fn words(s: &str) -> (r: Vec<String>)
    ensures
        texts(r@) == words_of(s@),
{
    let chars = to_chars(s);
    let n: usize = chars.len();
    let mut out: Vec<String> = Vec::new();
    let mut at: usize = 0;
    assert(s@.skip(0) =~= s@);
    assert(texts(out@) + words_of(s@.skip(0)) =~= words_of(s@));
    loop
        invariant
            at <= n,
            n == chars@.len(),
            chars@ == s@,
            words_of(s@) == texts(out@) + words_of(s@.skip(at as int)),
        decreases n - at,
    {
        let ghost rest = s@.skip(at as int);
        let ghost start = at as int;
        while at < n && is_white(chars[at])
            invariant
                start <= at <= n,
                n == chars@.len(),
                chars@ == s@,
                rest == s@.skip(start),
                trim_front(rest) == trim_front(s@.skip(at as int)),
            decreases n - at,
        {
            assert(s@.skip(at as int).skip(1) =~= s@.skip(at as int + 1));
            at += 1;
        }
        let ghost t = s@.skip(at as int);
        assert(trim_front(rest) == t);
        if at == n {
            assert(words_of(rest) =~= Seq::<Seq<char>>::empty());
            assert(texts(out@) =~= words_of(s@));
            return out;
        }
        let from: usize = at;
        assert(t.skip(0) =~= t);
        while at < n && !is_white(chars[at])
            invariant
                from <= at <= n,
                n == chars@.len(),
                chars@ == s@,
                t == s@.skip(from as int),
                word_len(t) == at - from + word_len(s@.skip(at as int)),
            decreases n - at,
        {
            assert(s@.skip(at as int).skip(1) =~= s@.skip(at as int + 1));
            at += 1;
        }
        let ghost prior = out@;
        let word = from_range(&chars, from, at);
        out.push(word);
        proof {
            word_fits(t);
            trim_front_fits(rest);
            assert(word@ =~= t.take(at - from));
            assert(t.skip(at - from) =~= s@.skip(at as int));
            assert(words_of(rest) == seq![word@] + words_of(s@.skip(at as int)));
            assert(texts(out@) =~= texts(prior).push(word@));
            assert(texts(prior) + (seq![word@] + words_of(s@.skip(at as int))) =~= texts(out@)
                + words_of(s@.skip(at as int)));
        }
    }
}

/// A line without the carriage return at its end.
pub open spec fn without_return(line: Seq<char>) -> Seq<char> {
    if line.len() > 0 && line.last() == '\r' {
        line.drop_last()
    } else {
        line
    }
}

/// The lines of `s`. A line ends with a line feed, which may have a carriage
/// return in front of it; the last one may end without.
pub open spec fn lines_of(s: Seq<char>) -> Seq<Seq<char>>
    decreases s.len(),
{
    if s.len() == 0 {
        Seq::empty()
    } else {
        match cut_at(s, '\n') {
            None => seq![s],
            Some((line, rest)) => {
                proof {
                    first_of_finds(s, '\n');
                }
                if rest.len() < s.len() {
                    seq![without_return(line)] + lines_of(rest)
                } else {
                    Seq::empty()
                }
            },
        }
    }
}

/// The lines of `s`.
pub fn lines(s: &str) -> (r: Vec<String>)
    ensures
        texts(r@) == lines_of(s@),
{
    let mut out: Vec<String> = Vec::new();
    let mut rest = s;
    assert(texts(out@) + lines_of(s@) =~= lines_of(s@));
    loop
        invariant
            lines_of(s@) == texts(out@) + lines_of(rest@),
        decreases rest@.len(),
    {
        if rest.is_empty() {
            assert(lines_of(rest@) =~= Seq::<Seq<char>>::empty());
            assert(texts(out@) =~= lines_of(s@));
            return out;
        }
        let ghost prior = out@;
        let ghost whole = rest@;
        match split_once(rest, '\n') {
            None => {
                out.push(rest.to_owned());
                assert(texts(out@) =~= texts(prior) + seq![rest@]);
                return out;
            },
            Some((line, tail)) => {
                proof {
                    first_of_finds(whole, '\n');
                }
                let kept = match strip_suffix(line, "\r") {
                    Some(kept) => kept,
                    None => line,
                };
                proof {
                    reveal_strlit("\r");
                    if line@.len() > 0 && line@.last() == '\r' {
                        assert("\r"@.is_suffix_of(line@));
                        assert(kept@ =~= line@.drop_last());
                    } else if "\r"@.is_suffix_of(line@) {
                        assert(line@.last() == "\r"@[0]);
                    }
                    assert(kept@ == without_return(line@));
                }
                out.push(kept.to_owned());
                assert(texts(out@) =~= texts(prior).push(kept@));
                assert(texts(prior) + (seq![kept@] + lines_of(tail@)) =~= texts(out@) + lines_of(
                    tail@,
                ));
                rest = tail;
            },
        }
    }
}

/// `s` in quotes, with what a reader could not see escaped.
pub uninterp spec fn quoted_text(s: Seq<char>) -> Seq<char>;

/// The `Debug` formatting of `str`: the text in double quotes, with quotes,
/// backslashes and characters that cannot be seen escaped.
#[verifier::external_body]
pub(crate) fn quoted(s: &str) -> (r: String)
    ensures
        r@ == quoted_text(s@),
{
    format!("{s:?}")
}

/// Trimming cuts off white space alone, and all of it that stands at the ends:
/// what lies between two characters that are none is kept as it is.
pub proof fn only_white_ends_are_cut(front: Seq<char>, s: Seq<char>, back: Seq<char>)
    requires
        forall|k: int| 0 <= k < front.len() ==> white(#[trigger] front[k]),
        forall|k: int| 0 <= k < back.len() ==> white(#[trigger] back[k]),
        s.len() == 0 ==> front.len() == 0,
        s.len() > 0 ==> !white(s[0]) && !white(s.last()),
    ensures
        trimmed(front + s + back) == s,
{
    if s.len() == 0 {
        assert(front + s + back =~= back);
        white_front_is_cut(back, Seq::empty());
        assert(back + Seq::<char>::empty() =~= back);
        assert(s =~= Seq::<char>::empty());
        assert(trim_back(Seq::<char>::empty()) =~= Seq::<char>::empty());
    } else {
        assert((s + back)[0] == s[0]);
        white_front_is_cut(front, s + back);
        assert(front + s + back =~= front + (s + back));
        white_back_is_cut(s, back);
    }
}

proof fn white_front_is_cut(front: Seq<char>, s: Seq<char>)
    requires
        forall|k: int| 0 <= k < front.len() ==> white(#[trigger] front[k]),
        s.len() > 0 ==> !white(s[0]),
    ensures
        trim_front(front + s) == s,
    decreases front.len(),
{
    if front.len() == 0 {
        assert(front + s =~= s);
    } else {
        let rest = front.drop_first();
        assert forall|k: int| 0 <= k < rest.len() implies white(#[trigger] rest[k]) by {
            assert(white(front[k + 1]));
        }
        white_front_is_cut(rest, s);
        assert((front + s).drop_first() =~= rest + s);
        assert((front + s)[0] == front[0]);
    }
}

proof fn white_back_is_cut(s: Seq<char>, back: Seq<char>)
    requires
        forall|k: int| 0 <= k < back.len() ==> white(#[trigger] back[k]),
        s.len() > 0,
        !white(s.last()),
    ensures
        trim_back(s + back) == s,
    decreases back.len(),
{
    if back.len() == 0 {
        assert(s + back =~= s);
    } else {
        let rest = back.drop_last();
        assert forall|k: int| 0 <= k < rest.len() implies white(#[trigger] rest[k]) by {
            assert(white(back[k]));
        }
        white_back_is_cut(s, rest);
        assert((s + back).drop_last() =~= s + rest);
        assert((s + back).last() == back.last());
        assert(white(back[back.len() - 1]));
    }
}

/// A line is what stands in front of its line feed, without a carriage return
/// there, and the lines behind it are those of the rest.
pub proof fn lines_end_at_line_feeds(line: Seq<char>, rest: Seq<char>)
    requires
        !line.contains('\n'),
        line.len() > 0 ==> line.last() != '\r',
    ensures
        lines_of(line + seq!['\n'] + rest) == seq![line] + lines_of(rest),
        lines_of(line + seq!['\r', '\n'] + rest) == seq![line] + lines_of(rest),
        line.len() > 0 ==> lines_of(line) == seq![line],
        lines_of(Seq::empty()) == Seq::<Seq<char>>::empty(),
{
    let n = line.len() as int;
    let a = line + seq!['\n'] + rest;
    let b = line + seq!['\r', '\n'] + rest;
    assert forall|k: int| 0 <= k < n implies line[k] != '\n' && a[k] != '\n' && b[k] != '\n' by {
        assert(line.contains(line[k]));
        assert(a[k] == line[k] && b[k] == line[k]);
    }
    assert(a[n] == '\n');
    assert(b[n] == '\r' && b[n + 1] == '\n');
    first_of_is(a, '\n', n);
    first_of_is(b, '\n', n + 1);
    first_of_is(line, '\n', n);
    assert(a.take(n) =~= line);
    assert(a.skip(n + 1) =~= rest);
    assert(b.take(n + 1) =~= line.push('\r'));
    assert(line.push('\r').drop_last() =~= line);
    assert(b.skip(n + 2) =~= rest);
}

/// Whatever white space stands around and between them, words are found as they
/// are.
pub proof fn words_stand_between_white_space(
    front: Seq<char>,
    word: Seq<char>,
    gap: char,
    rest: Seq<char>,
)
    requires
        forall|k: int| 0 <= k < front.len() ==> white(#[trigger] front[k]),
        word.len() > 0,
        forall|k: int| 0 <= k < word.len() ==> !white(#[trigger] word[k]),
        white(gap),
    ensures
        words_of(front + word + seq![gap] + rest) == seq![word] + words_of(seq![gap] + rest),
        words_of(front + word) == seq![word],
        words_of(front) == Seq::<Seq<char>>::empty(),
{
    let behind = seq![gap] + rest;
    let whole = front + word + seq![gap] + rest;
    assert(whole =~= front + (word + behind));
    assert((word + behind)[0] == word[0]);
    white_front_is_cut(front, word + behind);
    white_front_is_cut(front, word);
    white_front_is_cut(front, Seq::empty());
    assert(front + Seq::<char>::empty() =~= front);
    word_ends(word, behind);
    word_ends(word, Seq::empty());
    assert(word + Seq::<char>::empty() =~= word);
    assert((word + behind).take(word.len() as int) =~= word);
    assert((word + behind).skip(word.len() as int) =~= behind);
    assert(word.take(word.len() as int) =~= word);
    assert(word.skip(word.len() as int) =~= Seq::<char>::empty());
    assert(trim_front(Seq::<char>::empty()) =~= Seq::<char>::empty());
    assert(words_of(Seq::<char>::empty()) =~= Seq::<Seq<char>>::empty());
}

proof fn word_ends(word: Seq<char>, behind: Seq<char>)
    requires
        forall|k: int| 0 <= k < word.len() ==> !white(#[trigger] word[k]),
        behind.len() > 0 ==> white(behind[0]),
    ensures
        word_len(word + behind) == word.len(),
    decreases word.len(),
{
    if word.len() == 0 {
        assert(word + behind =~= behind);
    } else {
        let rest = word.skip(1);
        assert forall|k: int| 0 <= k < rest.len() implies !white(#[trigger] rest[k]) by {
            assert(!white(word[k + 1]));
        }
        word_ends(rest, behind);
        assert((word + behind).skip(1) =~= rest + behind);
        assert((word + behind)[0] == word[0]);
    }
}

/// Each of the strings stands in what they were joined to.
pub proof fn joined_texts_hold_each_part(parts: Seq<Seq<char>>, sep: Seq<char>, i: int)
    requires
        0 <= i < parts.len(),
    ensures
        occurs(joined(parts, sep), parts[i]),
    decreases parts.len(),
{
    let all = joined(parts, sep);
    let p = parts[i];
    if parts.len() == 1 {
        let at: int = 0;
        assert(all.subrange(at, at + p.len()) =~= p);
    } else if i == parts.len() - 1 {
        let at = all.len() - p.len();
        assert(all.subrange(at, at + p.len()) =~= p);
    } else {
        let front = parts.drop_last();
        joined_texts_hold_each_part(front, sep, i);
        occurs_in_more(Seq::empty(), joined(front, sep), sep + parts.last(), p);
        assert(Seq::<char>::empty() + joined(front, sep) + (sep + parts.last()) =~= all);
    }
}

/// What stands in a text stands in every text that holds it.
pub proof fn occurs_in_more(front: Seq<char>, s: Seq<char>, back: Seq<char>, n: Seq<char>)
    requires
        occurs(s, n),
    ensures
        occurs(front + s + back, n),
{
    let i = choose|i: int|
        0 <= i && i + n.len() <= s.len() && #[trigger] s.subrange(i, i + n.len()) == n;
    let all = front + s + back;
    let at = front.len() + i;
    assert(all.subrange(at, at + n.len()) =~= s.subrange(i, i + n.len()));
}

/// What stands behind a prefix is found, and what stands in front of a suffix;
/// nothing is where the text does not begin or end so.
pub proof fn prefixes_and_suffixes_are_cut_off(p: Seq<char>, s: Seq<char>)
    ensures
        after_prefix(p + s, p) == Some(s),
        before_suffix(s + p, p) == Some(s),
        after_prefix(s, p) matches Some(rest) ==> s == p + rest,
        before_suffix(s, p) matches Some(rest) ==> s == rest + p,
{
    assert(p =~= (p + s).subrange(0, p.len() as int));
    assert((p + s).skip(p.len() as int) =~= s);
    assert(p =~= (s + p).subrange(s.len() as int, (s + p).len() as int));
    assert((s + p).take(s.len() as int) =~= s);
    if after_prefix(s, p) is Some {
        assert(p =~= s.subrange(0, p.len() as int));
        assert(s =~= p + after_prefix(s, p)->0);
    }
    if before_suffix(s, p) is Some {
        assert(p =~= s.subrange(s.len() - p.len(), s.len() as int));
        assert(s =~= before_suffix(s, p)->0 + p);
    }
}

/// A text is cut at the first of the characters, and where it holds none it is
/// not cut; behind the last of them stands what comes after all of them.
pub proof fn texts_are_cut_at_the_first(a: Seq<char>, c: char, b: Seq<char>)
    requires
        !a.contains(c),
    ensures
        cut_at(a + seq![c] + b, c) == Some((a, b)),
        cut_at(a, c) is None,
        after_last(b + seq![c] + a, c) == a,
        after_last(a, c) == a,
{
    let s = a + seq![c] + b;
    let n = a.len() as int;
    assert forall|k: int| 0 <= k < n implies a[k] != c && s[k] != c by {
        assert(a.contains(a[k]));
        assert(s[k] == a[k]);
    }
    assert(s[n] == c);
    first_of_is(s, c, n);
    first_of_is(a, c, n);
    assert(s.take(n) =~= a);
    assert(s.skip(n + 1) =~= b);
    nothing_behind(b, a, c);
    nothing_at_all(a, c);
}

proof fn nothing_behind(b: Seq<char>, a: Seq<char>, c: char)
    requires
        forall|k: int| 0 <= k < a.len() ==> a[k] != c,
    ensures
        after_last(b + seq![c] + a, c) == a,
    decreases a.len(),
{
    let s = b + seq![c] + a;
    if a.len() > 0 {
        let front = a.drop_last();
        assert forall|k: int| 0 <= k < front.len() implies front[k] != c by {
            assert(front[k] == a[k]);
        }
        nothing_behind(b, front, c);
        assert(s.drop_last() =~= b + seq![c] + front);
        assert(front.push(a.last()) =~= a);
    } else {
        assert(a =~= Seq::<char>::empty());
        assert(s.last() == c);
    }
}

proof fn nothing_at_all(a: Seq<char>, c: char)
    requires
        forall|k: int| 0 <= k < a.len() ==> a[k] != c,
    ensures
        after_last(a, c) == a,
    decreases a.len(),
{
    if a.len() > 0 {
        let front = a.drop_last();
        assert forall|k: int| 0 <= k < front.len() implies front[k] != c by {
            assert(front[k] == a[k]);
        }
        nothing_at_all(front, c);
        assert(front.push(a.last()) =~= a);
    } else {
        assert(a =~= Seq::<char>::empty());
    }
}

/// White space is what Unicode calls so.
pub proof fn white_space_is_that_of_unicode(c: char)
    ensures
        white(c) <==> 9 <= c as int <= 13 || c as int == 32 || c as int == 133 || c as int == 160
            || c as int == 5760 || 8192 <= c as int <= 8202 || c as int == 8232 || c as int == 8233
            || c as int == 8239 || c as int == 8287 || c as int == 12288,
{
}

/// A list of strings, and a string that may be absent, are seen with all their
/// characters.
pub proof fn texts_are_seen_as_they_are(v: Seq<String>, i: int, opt: Option<String>, part: Option<&str>)
    requires
        0 <= i < v.len(),
    ensures
        texts(v).len() == v.len(),
        texts(v)[i] == v[i]@,
        opt_text(opt) is Some <==> opt is Some,
        opt is Some ==> opt_text(opt)->0 == opt->0@,
        opt_str(part) is Some <==> part is Some,
        part is Some ==> opt_str(part)->0 == part->0@,
{
}

} // verus!
