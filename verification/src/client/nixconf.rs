//! Pointing the local Nix at the cache. Only the user's own `nix.conf` is
//! written.

use vstd::prelude::*;
use vstd::string::*;

use crate::text::{
    contains, ends_with, join, joined, joined_texts_come_apart, joined_texts_hold_each_part, occurs,
    occurs_in_more, pieces, texts,
};

verus! {

/// The two lines that Nix needs.
pub open spec fn conf_text(puller: Seq<char>, keys: Seq<Seq<char>>) -> Seq<char> {
    "extra-substituters = "@ + puller + "\nextra-trusted-public-keys = "@ + joined(keys, " "@)
        + "\n"@
}

/// The two lines that Nix needs: where to fetch from, and whose signatures to
/// trust. They add to what is configured already. All keys stand on one line,
/// since a second line would replace the first.
pub fn lines(puller: &str, public_keys: &Vec<String>) -> (r: String)
    ensures
        r@ == conf_text(puller@, texts(public_keys@)),
{
    "extra-substituters = ".to_owned().concat(puller).concat("\nextra-trusted-public-keys = ").concat(
        join(public_keys, " ").as_str(),
    ).concat("\n")
}

/// Each of `keys` in quotes.
pub open spec fn in_quotes(keys: Seq<Seq<char>>) -> Seq<Seq<char>> {
    keys.map_values(|k: Seq<char>| "\""@ + k + "\""@)
}

/// The same for a NixOS host, whose system configuration is generated.
pub open spec fn snippet_text(puller: Seq<char>, keys: Seq<Seq<char>>) -> Seq<char> {
    "nix.settings = {\n  substituters = [ \""@ + puller + "\" ];\n  trusted-public-keys = [ "@
        + joined(in_quotes(keys), " "@) + " ];\n};\n"@
}

/// The same for a NixOS host, whose system configuration is generated.
pub fn nixos_snippet(puller: &str, public_keys: &Vec<String>) -> (r: String)
    ensures
        r@ == snippet_text(puller@, texts(public_keys@)),
{
    let mut keys: Vec<String> = Vec::new();
    let mut i: usize = 0;
    while i < public_keys.len()
        invariant
            i <= public_keys@.len(),
            keys@.len() == i,
            forall|k: int|
                0 <= k < i ==> (#[trigger] keys@[k])@ == "\""@ + public_keys@[k]@ + "\""@,
        decreases public_keys@.len() - i,
    {
        keys.push("\"".to_owned().concat(public_keys[i].as_str()).concat("\""));
        i += 1;
    }
    assert(texts(keys@) =~= in_quotes(texts(public_keys@)));
    "nix.settings = {\n  substituters = [ \"".to_owned().concat(puller).concat(
        "\" ];\n  trusted-public-keys = [ ",
    ).concat(join(&keys, " ").as_str()).concat(" ];\n};\n")
}

/// What becomes of the user's file.
#[derive(Debug)]
pub enum Outcome {
    /// It is to hold this.
    Added(String),
    /// It names the cache already.
    AlreadyPresent,
}

/// `existing` with a line feed at its end, unless it is empty.
pub open spec fn closed_line(existing: Seq<char>) -> Seq<char> {
    if existing.len() == 0 || existing.last() == '\n' {
        existing
    } else {
        existing.push('\n')
    }
}

/// What becomes of the user's file, of which `existing` is what it holds: the
/// lines are appended, unless the URL stands in it already. The file is not
/// parsed.
pub fn apply(existing: &str, puller: &str, public_keys: &Vec<String>) -> (r: Outcome)
    ensures
        match r {
            Outcome::AlreadyPresent => occurs(existing@, puller@),
            Outcome::Added(text) => !occurs(existing@, puller@) && text@ == closed_line(existing@)
                + conf_text(puller@, texts(public_keys@)),
        },
{
    if contains(existing, puller) {
        return Outcome::AlreadyPresent;
    }
    let mut out = existing.to_owned();
    let closed = existing.is_empty() || ends_with(existing, "\n");
    proof {
        reveal_strlit("\n");
        if existing@.len() > 0 {
            if existing@.last() == '\n' {
                assert("\n"@.is_suffix_of(existing@)) by {
                    assert(existing@.subrange(existing@.len() - 1, existing@.len() as int) =~= "\n"@);
                }
            } else if "\n"@.is_suffix_of(existing@) {
                assert(existing@.last() == "\n"@[0]);
            }
        }
    }
    if !closed {
        out.push('\n');
    }
    Outcome::Added(out.concat(lines(puller, public_keys).as_str()))
}

/// Adding the cache a second time changes nothing: what the first time wrote
/// names it.
pub proof fn adding_is_idempotent(existing: Seq<char>, puller: Seq<char>, keys: Seq<Seq<char>>)
    ensures
        occurs(closed_line(existing) + conf_text(puller, keys), puller),
{
    let text = closed_line(existing) + conf_text(puller, keys);
    let at = (closed_line(existing) + "extra-substituters = "@).len() as int;
    assert(text.subrange(at, at + puller.len()) =~= puller);
}

/// Whether Nix lists the cache among its substituters. It ignores a user's
/// file without a word where it does not trust the user.
pub fn honoured(substituters: &str, puller: &str) -> (r: bool)
    ensures
        r == occurs(substituters@, puller@),
{
    contains(substituters, puller)
}

/// Nix is given two lines: where to fetch from, and on one line all the keys to
/// trust, with blanks between them.
pub proof fn nix_is_given_two_lines(puller: Seq<char>, keys: Seq<Seq<char>>)
    requires
        !puller.contains('\n'),
        keys.len() > 0,
        forall|i: int|
            0 <= i < keys.len() ==> !(#[trigger] keys[i]).contains('\n') && !keys[i].contains(' '),
    ensures
        pieces(conf_text(puller, keys), '\n').len() == 3,
        pieces(conf_text(puller, keys), '\n')[0] == "extra-substituters = "@ + puller,
        pieces(conf_text(puller, keys), '\n')[1] == "extra-trusted-public-keys = "@ + joined(
            keys,
            " "@,
        ),
        pieces(conf_text(puller, keys), '\n')[2].len() == 0,
        pieces(joined(keys, " "@), ' ') == keys,
{
    reveal_strlit("extra-substituters = ");
    reveal_strlit("extra-trusted-public-keys = ");
    reveal_strlit("\nextra-trusted-public-keys = ");
    reveal_strlit("\n");
    reveal_strlit(" ");
    assert(" "@ =~= seq![' ']);
    let first = "extra-substituters = "@ + puller;
    let second = "extra-trusted-public-keys = "@ + joined(keys, " "@);
    let parts = seq![first, second, Seq::<char>::empty()];
    keys_fit_one_line(keys);
    assert forall|i: int, k: int|
        0 <= i < parts.len() && 0 <= k < parts[i].len() implies #[trigger] parts[i][k] != '\n' by {
        if i == 0 && k >= 21 {
            assert(puller[k - 21] == first[k]);
            assert(puller.contains(puller[k - 21]));
        } else if i == 1 && k >= 28 {
            let j = joined(keys, " "@);
            assert(j[k - 28] == second[k]);
            assert(j.contains(j[k - 28]));
        }
    }
    joined_texts_come_apart(parts, '\n');
    assert("\nextra-trusted-public-keys = "@ =~= seq!['\n'] + "extra-trusted-public-keys = "@);
    assert("\n"@ =~= seq!['\n']);
    let two = seq![first, second];
    assert(parts.drop_last() =~= two);
    assert(two.drop_last() =~= seq![first]);
    assert(joined(seq![first], seq!['\n']) == first);
    assert(joined(two, seq!['\n']) == first + seq!['\n'] + second);
    assert(joined(parts, seq!['\n']) =~= conf_text(puller, keys));
    assert forall|i: int, k: int|
        0 <= i < keys.len() && 0 <= k < keys[i].len() implies #[trigger] keys[i][k] != ' ' by {
        assert(keys[i].contains(keys[i][k]));
    }
    joined_texts_come_apart(keys, ' ');
}

proof fn keys_fit_one_line(keys: Seq<Seq<char>>)
    requires
        forall|i: int| 0 <= i < keys.len() ==> !(#[trigger] keys[i]).contains('\n'),
    ensures
        !joined(keys, " "@).contains('\n'),
    decreases keys.len(),
{
    reveal_strlit(" ");
    let all = joined(keys, " "@);
    if keys.len() > 1 {
        let front = keys.drop_last();
        assert forall|i: int| 0 <= i < front.len() implies !(#[trigger] front[i]).contains('\n') by {
            assert(!keys[i].contains('\n'));
        }
        keys_fit_one_line(front);
        if all.contains('\n') {
            let k = all.index_of('\n');
            let n = joined(front, " "@).len();
            if k < n {
                assert(joined(front, " "@)[k] == '\n');
                assert(joined(front, " "@).contains('\n'));
            } else if k > n {
                assert(keys.last()[k - n - 1] == '\n');
                assert(!keys[keys.len() - 1].contains('\n'));
            }
        }
    } else if keys.len() == 1 {
        assert(!keys[0].contains('\n'));
    }
}

/// What the user has written stays, and what is added begins on a line of its
/// own.
pub proof fn what_is_there_stays(existing: Seq<char>)
    ensures
        existing.is_prefix_of(closed_line(existing)),
        closed_line(existing).len() <= existing.len() + 1,
        closed_line(existing).len() > 0 ==> closed_line(existing).last() == '\n',
        existing.len() == 0 ==> closed_line(existing).len() == 0,
{
    assert(existing =~= closed_line(existing).subrange(0, existing.len() as int));
}

/// A NixOS host is given the cache and every key, each in quotes.
pub proof fn hosts_are_given_every_key(puller: Seq<char>, keys: Seq<Seq<char>>, i: int)
    requires
        0 <= i < keys.len(),
    ensures
        occurs(snippet_text(puller, keys), "\""@ + keys[i] + "\""@),
        occurs(snippet_text(puller, keys), "substituters = [ \""@ + puller + "\" ];"@),
        occurs(snippet_text(puller, keys), "trusted-public-keys = [ "@ + joined(in_quotes(keys), " "@)),
{
    reveal_strlit("nix.settings = {\n  substituters = [ \"");
    reveal_strlit("\" ];\n  trusted-public-keys = [ ");
    reveal_strlit("substituters = [ \"");
    reveal_strlit("\" ];");
    reveal_strlit("trusted-public-keys = [ ");
    let quoted = in_quotes(keys);
    let middle = joined(quoted, " "@);
    let front = "nix.settings = {\n  substituters = [ \""@ + puller
        + "\" ];\n  trusted-public-keys = [ "@;
    let back = " ];\n};\n"@;
    let all = snippet_text(puller, keys);
    assert(all =~= front + middle + back);
    joined_texts_hold_each_part(quoted, " "@, i);
    occurs_in_more(front, middle, back, quoted[i]);
    let p = "substituters = [ \""@ + puller + "\" ];"@;
    assert(all.subrange(19, 19int + p.len()) =~= p);
    let q = "trusted-public-keys = [ "@ + middle;
    let at = front.len() - "trusted-public-keys = [ "@.len();
    assert(all.subrange(at, at + q.len()) =~= q);
}

} // verus!
