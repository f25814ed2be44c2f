//! What the browse routes answer, and how it is shown.

use vstd::prelude::*;
use vstd::string::*;
use vstd::utf8::{
    decode_utf8, encode_utf8, encode_utf8_decode_utf8, encode_utf8_valid_utf8, is_ascii_chars,
    is_ascii_chars_encode_utf8, is_char_boundary, is_char_boundary_iff_not_is_continuation_byte,
};

use crate::client::push::{pad, padded};
use crate::number::{decimal_int, show_signed};
use crate::text::{occurs, occurs_in_more};

verus! {

/// One object in a listing.
#[derive(Debug)]
pub struct Summary {
    /// Store path hash.
    pub hash: String,
    /// The name in its store path.
    pub name: String,
    /// Size of the uncompressed NAR in bytes.
    pub nar_size: i64,
    /// Size of the stored blob in bytes.
    pub file_size: i64,
}

/// One page of a listing.
#[derive(Debug)]
pub struct Page {
    /// The objects on this page.
    pub objects: Vec<Summary>,
    /// Where the next page begins; `None` on the last one.
    pub next_cursor: Option<String>,
}

/// One node of a dependency tree.
#[derive(Debug)]
pub struct TreeNode {
    /// The name in its store path.
    pub name: String,
    /// The cache does not hold it.
    pub missing: bool,
    /// It came up before, and what is below it is left out here.
    pub truncated: bool,
    /// What it refers to.
    pub children: Vec<TreeNode>,
}

/// One pin in a listing.
#[derive(Debug)]
pub struct Pin {
    /// The operator's name for it.
    pub name: String,
    /// Store path hash of the pinned object.
    pub store_path_hash: String,
    /// Its store path.
    pub store_path: String,
    /// Unix time from which it protects nothing; `None` is never.
    pub expires_at: Option<i64>,
}

/// What a node is marked with.
pub open spec fn mark_of(missing: bool, truncated: bool) -> Seq<char> {
    if missing {
        " (missing)"@
    } else if truncated {
        " (\u{2026})"@
    } else {
        ""@
    }
}

/// Two blanks for each level.
pub open spec fn indent(depth: nat) -> Seq<char>
    decreases depth,
{
    if depth == 0 {
        Seq::empty()
    } else {
        indent((depth - 1) as nat) + "  "@
    }
}

/// The tree below and with `node`, one line for each node.
pub open spec fn tree_text(node: TreeNode, depth: nat) -> Seq<char>
    decreases node,
{
    indent(depth) + node.name@ + mark_of(node.missing, node.truncated) + "\n"@ + trees_text(
        node.children@,
        depth + 1,
    )
}

/// The trees below and with `nodes`, one after the other.
pub open spec fn trees_text(nodes: Seq<TreeNode>, depth: nat) -> Seq<char>
    decreases nodes,
{
    if nodes.len() == 0 {
        Seq::empty()
    } else {
        trees_text(nodes.drop_last(), depth) + tree_text(nodes.last(), depth)
    }
}

fn render_at(node: &TreeNode, blanks: &str, Ghost(depth): Ghost<nat>, out: &mut String)
    requires
        blanks@ == indent(depth),
    ensures
        final(out)@ == old(out)@ + tree_text(*node, depth),
    decreases node,
{
    let mark = if node.missing {
        " (missing)"
    } else if node.truncated {
        " (\u{2026})"
    } else {
        ""
    };
    out.append(blanks);
    out.append(node.name.as_str());
    out.append(mark);
    out.append("\n");
    let inner = blanks.to_owned().concat("  ");
    let ghost head = indent(depth) + node.name@ + mark_of(node.missing, node.truncated) + "\n"@;
    assert(inner@ =~= indent(depth + 1));
    assert(out@ =~= old(out)@ + head);
    let mut i: usize = 0;
    assert(trees_text(node.children@.take(0), depth + 1) =~= Seq::<char>::empty());
    while i < node.children.len()
        invariant
            i <= node.children@.len(),
            inner@ == indent(depth + 1),
            out@ == old(out)@ + head + trees_text(node.children@.take(i as int), depth + 1),
        decreases node.children@.len() - i,
    {
        let ghost done = out@;
        render_at(&node.children[i], inner.as_str(), Ghost(depth + 1), out);
        proof {
            let next = node.children@.take(i as int + 1);
            assert(next.drop_last() =~= node.children@.take(i as int));
            assert(next.last() == node.children@[i as int]);
            assert(out@ =~= old(out)@ + head + trees_text(next, depth + 1));
        }
        i += 1;
    }
    assert(node.children@.take(i as int) =~= node.children@);
    assert(out@ =~= old(out)@ + tree_text(*node, depth));
}

/// Appends a tree as indented lines, with marks on what the cache does not
/// hold and on what is left out because it came up before.
pub fn render(node: &TreeNode, depth: usize, out: &mut String)
    ensures
        final(out)@ == old(out)@ + tree_text(*node, depth as nat),
{
    let mut blanks = String::new();
    let mut i: usize = 0;
    assert(blanks@ =~= indent(0));
    while i < depth
        invariant
            i <= depth,
            blanks@ == indent(i as nat),
        decreases depth - i,
    {
        blanks.append("  ");
        i += 1;
    }
    render_at(node, blanks.as_str(), Ghost(depth as nat), out);
}

/// A hash can be cut behind eight bytes.
pub open spec fn has_short(hash: Seq<char>) -> bool {
    encode_utf8(hash).len() <= 8 || is_char_boundary(encode_utf8(hash), 8)
}

/// The first eight bytes of a hash.
pub open spec fn short_hash(hash: Seq<char>) -> Seq<char> {
    if encode_utf8(hash).len() <= 8 {
        hash
    } else {
        decode_utf8(encode_utf8(hash).subrange(0, 8))
    }
}

fn shorten_hash(hash: &str) -> (r: &str)
    requires
        has_short(hash@),
    ensures
        r@ == short_hash(hash@),
{
    if hash.as_bytes().len() <= 8 {
        hash
    } else {
        let (head, _) = hash.split_at(8);
        proof {
            vstd::utf8::encode_utf8_decode_utf8(head@);
            assert(head.spec_bytes() == encode_utf8(head@));
        }
        head
    }
}

/// Until when a pin protects, in words.
pub open spec fn expiry_text(expires_at: Option<i64>, now: i64) -> Seq<char> {
    match expires_at {
        None => "permanent"@,
        Some(t) => if t <= now {
            "expired"@
        } else {
            "expires at "@ + decimal_int(t as int)
        },
    }
}

/// A pin in one line.
pub fn pin_line(pin: &Pin, now: i64) -> (r: String)
    requires
        has_short(pin.store_path_hash@),
    ensures
        r@ == padded(pin.name@, 20) + " "@ + short_hash(pin.store_path_hash@) + "  "@
            + pin.store_path@ + " ("@ + expiry_text(pin.expires_at, now) + ")"@,
{
    let expiry = match pin.expires_at {
        None => "permanent".to_owned(),
        Some(t) => if t <= now {
            "expired".to_owned()
        } else {
            "expires at ".to_owned().concat(show_signed(t).as_str())
        },
    };
    pad(pin.name.as_str(), 20).concat(" ").concat(
        shorten_hash(pin.store_path_hash.as_str()),
    ).concat("  ").concat(pin.store_path.as_str()).concat(" (").concat(expiry.as_str()).concat(")")
}

/// `s` with blanks in front of it, up to `n` characters.
pub open spec fn padded_front(s: Seq<char>, n: nat) -> Seq<char>
    decreases n - s.len(),
{
    if s.len() >= n {
        s
    } else {
        padded_front(seq![' '] + s, n)
    }
}

fn pad_front(s: &str, n: usize) -> (r: String)
    ensures
        r@ == padded_front(s@, n as nat),
{
    let mut out = s.to_owned();
    let mut len: usize = s.unicode_len();
    while len < n
        invariant
            len == out@.len(),
            padded_front(s@, n as nat) == padded_front(out@, n as nat),
        decreases n - len,
    {
        proof {
            reveal_strlit(" ");
            assert(" "@ =~= seq![' ']);
        }
        let ghost before = out@;
        out = " ".to_owned().concat(out.as_str());
        assert(out@ =~= seq![' '] + before);
        len += 1;
    }
    out
}

/// An object of a listing in one line; `size` is the size of its blob as
/// people read it.
pub fn object_line(object: &Summary, size: &str) -> (r: String)
    requires
        has_short(object.hash@),
    ensures
        r@ == short_hash(object.hash@) + "  "@ + padded(object.name@, 40) + " "@ + padded_front(
            size@,
            12,
        ) + " on disk"@,
{
    shorten_hash(object.hash.as_str()).to_owned().concat("  ").concat(
        pad(object.name.as_str(), 40).as_str(),
    ).concat(" ").concat(pad_front(size, 12).as_str()).concat(" on disk")
}

/// Where a listing is asked for.
pub fn objects_url(puller: &str) -> (r: String)
    ensures
        r@ == puller@ + "/api/v1/objects"@,
{
    puller.to_owned().concat("/api/v1/objects")
}

/// Where a dependency tree is asked for.
pub fn tree_url(puller: &str, hash: &str) -> (r: String)
    ensures
        r@ == puller@ + "/api/v1/objects/"@ + hash@ + "/tree"@,
{
    puller.to_owned().concat("/api/v1/objects/").concat(hash).concat("/tree")
}

/// Where the pins are asked for.
pub fn pins_url(puller: &str) -> (r: String)
    ensures
        r@ == puller@ + "/api/v1/pins"@,
{
    puller.to_owned().concat("/api/v1/pins")
}

/// Each level of a tree stands two blanks further in.
pub proof fn levels_are_indented(depth: nat, k: int)
    ensures
        indent(depth).len() == 2 * depth,
        0 <= k < 2 * depth ==> indent(depth)[k] == ' ',
    decreases depth,
{
    reveal_strlit("  ");
    if depth > 0 {
        levels_are_indented((depth - 1) as nat, k);
    }
}

/// A tree begins with the line of its own node, with its name and whether it is
/// missing or cut, and holds the trees of all its children one level further in.
pub proof fn trees_hold_their_children(node: TreeNode, depth: nat, i: int)
    requires
        0 <= i < node.children@.len(),
    ensures
        node.missing ==> (indent(depth) + node.name@ + " (missing)"@ + "\n"@).is_prefix_of(
            tree_text(node, depth),
        ),
        !node.missing && node.truncated ==> (indent(depth) + node.name@ + " (\u{2026})"@
            + "\n"@).is_prefix_of(tree_text(node, depth)),
        !node.missing && !node.truncated ==> (indent(depth) + node.name@ + "\n"@).is_prefix_of(
            tree_text(node, depth),
        ),
        occurs(tree_text(node, depth), tree_text(node.children@[i], depth + 1)),
{
    reveal_strlit("");
    let head = indent(depth) + node.name@ + mark_of(node.missing, node.truncated) + "\n"@;
    let rest = trees_text(node.children@, depth + 1);
    let all = tree_text(node, depth);
    assert(all == head + rest);
    assert(head =~= all.subrange(0, head.len() as int));
    if !node.missing && !node.truncated {
        assert(indent(depth) + node.name@ + "\n"@ =~= head);
    }
    trees_hold_each(node.children@, depth + 1, i);
    occurs_in_more(head, rest, Seq::empty(), tree_text(node.children@[i], depth + 1));
    assert(head + rest + Seq::<char>::empty() =~= all);
}

proof fn trees_hold_each(nodes: Seq<TreeNode>, depth: nat, i: int)
    requires
        0 <= i < nodes.len(),
    ensures
        occurs(trees_text(nodes, depth), tree_text(nodes[i], depth)),
    decreases nodes.len(),
{
    let all = trees_text(nodes, depth);
    let front = trees_text(nodes.drop_last(), depth);
    let last = tree_text(nodes.last(), depth);
    if i == nodes.len() - 1 {
        let at = front.len() as int;
        assert(all.subrange(at, at + last.len()) =~= last);
    } else {
        trees_hold_each(nodes.drop_last(), depth, i);
        occurs_in_more(Seq::empty(), front, last, tree_text(nodes[i], depth));
        assert(Seq::<char>::empty() + front + last =~= all);
    }
}

/// A hash is shown by its first eight characters.
pub proof fn hashes_are_shown_short(hash: Seq<char>)
    requires
        is_ascii_chars(hash),
    ensures
        has_short(hash),
        hash.len() <= 8 ==> short_hash(hash) == hash,
        hash.len() > 8 ==> short_hash(hash) == hash.take(8),
{
    is_ascii_chars_encode_utf8(hash);
    if hash.len() > 8 {
        let bytes = encode_utf8(hash);
        let front = hash.take(8);
        assert(is_ascii_chars(front));
        is_ascii_chars_encode_utf8(front);
        encode_utf8_valid_utf8(hash);
        assert(bytes[8] == hash[8] as u8);
        assert(hash[8] <= '\u{7f}');
        is_char_boundary_iff_not_is_continuation_byte(bytes, 8);
        assert(bytes.subrange(0, 8) =~= encode_utf8(front)) by {
            assert forall|i: int| 0 <= i < 8 implies bytes[i] == encode_utf8(front)[i] by {
                assert(hash[i] == front[i]);
            }
        }
        encode_utf8_decode_utf8(front);
    }
}

/// A pin is shown as expired from its end on, and before that with its end.
pub proof fn pins_are_shown_with_their_end(end: i64, now: i64)
    ensures
        expiry_text(None, now) == "permanent"@,
        now >= end ==> expiry_text(Some(end), now) == "expired"@,
        now < end ==> expiry_text(Some(end), now) == "expires at "@ + decimal_int(end as int),
{
}

/// A text is filled up with blanks in front of it, and never cut.
pub proof fn padding_fills_up_in_front(s: Seq<char>, n: nat)
    ensures
        padded_front(s, n).len() == if s.len() >= n {
            s.len()
        } else {
            n
        },
        padded_front(s, n).skip(padded_front(s, n).len() - s.len()) == s,
        forall|k: int|
            0 <= k < padded_front(s, n).len() - s.len() ==> padded_front(s, n)[k] == ' ',
    decreases n - s.len(),
{
    let p = padded_front(s, n);
    if s.len() >= n {
        assert(p.skip(0) =~= s);
    } else {
        let t = seq![' '] + s;
        padding_fills_up_in_front(t, n);
        let d = p.len() - t.len();
        assert(p.skip(d + 1) =~= t.skip(1));
        assert(t.skip(1) =~= s);
        assert(p.skip(d)[0] == p[d]);
    }
}

} // verus!
