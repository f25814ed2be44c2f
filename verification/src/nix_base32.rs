//! The base-32 alphabet of Nix: store path hashes and narinfo hashes are
//! printed in it.

use vstd::arithmetic::div_mod::{
    lemma_div_denominator, lemma_hoist_over_denominator, lemma_mod_multiples_vanish,
};
use vstd::arithmetic::power2::{lemma2_to64, lemma_pow2_adds, lemma_pow2_pos, pow2};
use vstd::prelude::*;
use vstd::string::*;

use crate::text::{find_char, first_of_finds, to_chars};

verus! {

/// The digits, by value.
pub open spec fn alphabet() -> Seq<char> {
    "0123456789abcdfghijklmnpqrsvwxyz"@
}

/// The number that `bytes` holds, its lowest byte first.
pub open spec fn number_in(bytes: Seq<u8>) -> int
    decreases bytes.len(),
{
    if bytes.len() == 0 {
        0
    } else {
        bytes[0] + 256 * number_in(bytes.drop_first())
    }
}

/// How many digits `n` bytes take.
pub open spec fn digits_for(n: int) -> int {
    if n == 0 {
        0
    } else {
        (n * 8 - 1) / 5 + 1
    }
}

/// The value of digit `m` of a number, counted from the lowest.
pub open spec fn digit_at(number: int, m: int) -> int {
    (number / (pow2((5 * m) as nat) as int)) % 32
}

/// `bytes` in base 32: their number, its highest digit first.
pub open spec fn base32(bytes: Seq<u8>) -> Seq<char> {
    let len = digits_for(bytes.len() as int);
    Seq::new(len as nat, |k: int| alphabet()[digit_at(number_in(bytes), len - 1 - k)])
}

proof fn number_not_negative(bytes: Seq<u8>)
    ensures
        number_in(bytes) >= 0,
    decreases bytes.len(),
{
    if bytes.len() > 0 {
        number_not_negative(bytes.drop_first());
    }
}

/// Dropping whole bytes divides the number.
proof fn number_skip(bytes: Seq<u8>, i: int)
    requires
        0 <= i <= bytes.len(),
    ensures
        number_in(bytes) / (pow2((8 * i) as nat) as int) == number_in(bytes.skip(i)),
    decreases i,
{
    lemma2_to64();
    number_not_negative(bytes);
    if i == 0 {
        assert(bytes.skip(0) =~= bytes);
        assert((8 * i) as nat == 0);
        assert(number_in(bytes) / 1 == number_in(bytes));
    } else {
        let rest = bytes.drop_first();
        number_skip(rest, i - 1);
        assert(rest.skip(i - 1) =~= bytes.skip(i));
        number_not_negative(rest);
        let e = (8 * (i - 1)) as nat;
        lemma_pow2_adds(8, e);
        lemma_pow2_pos(e);
        assert((8 * i) as nat == 8 + e);
        assert(pow2((8 * i) as nat) as int == 256 * (pow2(e) as int));
        lemma_div_denominator(number_in(bytes), 256, pow2(e) as int);
        assert(number_in(bytes) == bytes[0] + 256 * number_in(rest));
        assert(number_in(bytes) / 256 == number_in(rest));
    }
}

/// A digit spans at most two bytes.
proof fn digit_in_two_bytes(bytes: Seq<u8>, m: int)
    requires
        0 <= m < digits_for(bytes.len() as int),
    ensures
        ({
            let i = (5 * m) / 8;
            let j = (5 * m) % 8;
            let next = if i + 1 < bytes.len() {
                bytes[i + 1] as int
            } else {
                0
            };
            &&& 0 <= i < bytes.len()
            &&& digit_at(number_in(bytes), m) == ((bytes[i] + 256 * next) / (pow2(j as nat) as int))
                % 32
        }),
{
    let n = bytes.len() as int;
    let i = (5 * m) / 8;
    let j = (5 * m) % 8;
    assert(5 * m <= 8 * n - 1);
    let tail = bytes.skip(i);
    number_skip(bytes, i);
    number_not_negative(bytes);
    lemma_pow2_adds((8 * i) as nat, j as nat);
    lemma_pow2_pos((8 * i) as nat);
    lemma_pow2_pos(j as nat);
    assert(8 * i + j == 5 * m);
    lemma_div_denominator(
        number_in(bytes),
        pow2((8 * i) as nat) as int,
        pow2(j as nat) as int,
    );
    let w = number_in(tail);
    assert(digit_at(number_in(bytes), m) == (w / (pow2(j as nat) as int)) % 32);
    let x = bytes[i] as int;
    assert(tail[0] == bytes[i]);
    let next = if i + 1 < n {
        bytes[i + 1] as int
    } else {
        0
    };
    let high = two_bytes_and_more(tail);
    assert(i + 1 < n ==> tail[1] == bytes[i + 1]);
    assert(w == x + 256 * next + 65536 * high);
    cut_to_two_bytes(x + 256 * next, high, j);
}

/// A number is its two lowest bytes and a multiple of `65536`.
proof fn two_bytes_and_more(bytes: Seq<u8>) -> (high: int)
    requires
        bytes.len() > 0,
    ensures
        number_in(bytes) == bytes[0] + 256 * (if bytes.len() > 1 {
            bytes[1] as int
        } else {
            0
        }) + 65536 * high,
{
    let rest = bytes.drop_first();
    assert(number_in(bytes) == bytes[0] + 256 * number_in(rest));
    if rest.len() > 0 {
        assert(rest[0] == bytes[1]);
        assert(number_in(rest) == rest[0] + 256 * number_in(rest.drop_first()));
        number_in(rest.drop_first())
    } else {
        assert(number_in(rest) == 0);
        0
    }
}

/// A digit that begins in the lowest byte does not reach beyond the second.
proof fn cut_to_two_bytes(low: int, high: int, j: int)
    requires
        0 <= j < 8,
    ensures
        ((low + 65536 * high) / (pow2(j as nat) as int)) % 32 == (low / (pow2(j as nat) as int))
            % 32,
{
    lemma2_to64();
    if j == 0 {
        cut_multiple(low, high, 1, 2048);
    } else if j == 1 {
        cut_multiple(low, high, 2, 1024);
    } else if j == 2 {
        cut_multiple(low, high, 4, 512);
    } else if j == 3 {
        cut_multiple(low, high, 8, 256);
    } else if j == 4 {
        cut_multiple(low, high, 16, 128);
    } else if j == 5 {
        cut_multiple(low, high, 32, 64);
    } else if j == 6 {
        cut_multiple(low, high, 64, 32);
    } else {
        cut_multiple(low, high, 128, 16);
    }
}

proof fn cut_multiple(low: int, high: int, d: int, q: int)
    requires
        d > 0,
        d * (32 * q) == 65536,
    ensures
        ((low + 65536 * high) / d) % 32 == (low / d) % 32,
{
    let k = 32 * (q * high);
    assert(65536 * high == k * d) by (nonlinear_arith)
        requires
            d * (32 * q) == 65536,
            k == 32 * (q * high),
    ;
    lemma_hoist_over_denominator(low, k, d as nat);
    lemma_mod_multiples_vanish(q * high, low / d, 32);
}

/// Two to the power `j`.
fn small_power(j: usize) -> (r: u32)
    requires
        j < 8,
    ensures
        r == pow2(j as nat),
        r > 0,
{
    proof {
        lemma2_to64();
    }
    if j == 0 {
        1
    } else if j == 1 {
        2
    } else if j == 2 {
        4
    } else if j == 3 {
        8
    } else if j == 4 {
        16
    } else if j == 5 {
        32
    } else if j == 6 {
        64
    } else {
        128
    }
}

/// `bytes` in base 32, as Nix prints a hash.
pub fn encode(bytes: &[u8]) -> (r: String)
    requires
        bytes@.len() * 8 <= usize::MAX,
    ensures
        r@ == base32(bytes@),
{
    let mut out = String::new();
    if bytes.len() == 0 {
        assert(out@ =~= base32(bytes@));
        return out;
    }
    let digits = to_chars("0123456789abcdfghijklmnpqrsvwxyz");
    proof {
        reveal_strlit("0123456789abcdfghijklmnpqrsvwxyz");
    }
    let len: usize = (bytes.len() * 8 - 1) / 5 + 1;
    let mut m: usize = len;
    while m > 0
        invariant
            bytes@.len() * 8 <= usize::MAX,
            bytes@.len() > 0,
            len == digits_for(bytes@.len() as int),
            m <= len,
            digits@ == alphabet(),
            digits@.len() == 32,
            out@.len() == len - m,
            forall|k: int| 0 <= k < len - m ==> #[trigger] out@[k] == base32(bytes@)[k],
        decreases m,
    {
        m -= 1;
        proof {
            digit_in_two_bytes(bytes@, m as int);
        }
        assert(5 * m < 8 * bytes@.len());
        let i: usize = (m * 5) / 8;
        let j: usize = (m * 5) % 8;
        let next: u32 = if i + 1 < bytes.len() {
            bytes[i + 1] as u32
        } else {
            0
        };
        let two: u32 = bytes[i] as u32 + 256 * next;
        let d: u32 = (two / small_power(j)) % 32;
        out.push(digits[d as usize]);
    }
    assert(out@ =~= base32(bytes@));
    out
}

/// `s` is a store path hash: 32 characters of the alphabet.
pub open spec fn store_hash(s: Seq<char>) -> bool {
    s.len() == 32 && in_alphabet(s)
}

/// Every character of `s` is a digit of the alphabet.
pub open spec fn in_alphabet(s: Seq<char>) -> bool {
    forall|i: int| 0 <= i < s.len() ==> alphabet().contains(#[trigger] s[i])
}

/// Whether every character of `s` is a digit of the alphabet.
pub fn all_in_alphabet(s: &str) -> (r: bool)
    ensures
        r == in_alphabet(s@),
{
    let digits = to_chars("0123456789abcdfghijklmnpqrsvwxyz");
    let chars = to_chars(s);
    let mut i: usize = 0;
    while i < chars.len()
        invariant
            i <= chars@.len(),
            chars@ == s@,
            digits@ == alphabet(),
            forall|k: int| 0 <= k < i ==> alphabet().contains(#[trigger] s@[k]),
        decreases chars@.len() - i,
    {
        let at = find_char(&digits, chars[i]);
        proof {
            first_of_finds(digits@, chars@[i as int]);
        }
        if at == digits.len() {
            proof {
                if alphabet().contains(s@[i as int]) {
                    let w = alphabet().index_of(s@[i as int]);
                    assert(digits@[w] != chars@[i as int]);
                }
            }
            return false;
        }
        assert(alphabet()[at as int] == s@[i as int]);
        i += 1;
    }
    true
}

/// Whether `s` is a store path hash.
pub fn is_store_hash(s: &str) -> (r: bool)
    ensures
        r == store_hash(s@),
{
    s.unicode_len() == 32 && all_in_alphabet(s)
}

/// An encoding has as many digits as its bytes need, all of the alphabet.
pub proof fn encoding_is_in_the_alphabet(bytes: Seq<u8>)
    ensures
        base32(bytes).len() == digits_for(bytes.len() as int),
        in_alphabet(base32(bytes)),
{
    reveal_strlit("0123456789abcdfghijklmnpqrsvwxyz");
    let s = base32(bytes);
    number_not_negative(bytes);
    assert forall|k: int| 0 <= k < s.len() implies alphabet().contains(#[trigger] s[k]) by {
        let d = digit_at(number_in(bytes), digits_for(bytes.len() as int) - 1 - k);
        assert(0 <= d < 32);
        assert(s[k] == alphabet()[d]);
    }
}

/// Two numbers below `32^n` with the same digits are one.
proof fn digits_determine(a: int, b: int, n: nat)
    requires
        0 <= a < pow2(5 * n),
        0 <= b < pow2(5 * n),
        forall|m: int| 0 <= m < n ==> #[trigger] digit_at(a, m) == digit_at(b, m),
    ensures
        a == b,
    decreases n,
{
    lemma2_to64();
    if n > 0 {
        lemma_pow2_adds(5, (5 * (n - 1)) as nat);
        assert(digit_at(a, 0) == digit_at(b, 0));
        assert((5 * 0int) as nat == 0);
        assert(a / 1 == a && b / 1 == b);
        assert(a % 32 == b % 32);
        let x = a / 32;
        let y = b / 32;
        let top = pow2((5 * (n - 1)) as nat) as int;
        assert(pow2(5 * n) == 32 * top);
        assert(x < top);
        assert(y < top);
        assert forall|m: int| 0 <= m < n - 1 implies #[trigger] digit_at(x, m) == digit_at(y, m) by {
            lemma_pow2_adds(5, (5 * m) as nat);
            lemma_pow2_pos((5 * m) as nat);
            lemma_div_denominator(a, 32, pow2((5 * m) as nat) as int);
            lemma_div_denominator(b, 32, pow2((5 * m) as nat) as int);
            assert(5 + 5 * m == 5 * (m + 1));
            assert(digit_at(a, m + 1) == digit_at(b, m + 1));
        }
        digits_determine(x, y, (n - 1) as nat);
    } else {
        assert(pow2(0) == 1);
    }
}

proof fn number_bound(bytes: Seq<u8>)
    ensures
        0 <= number_in(bytes) < pow2(8 * bytes.len()),
    decreases bytes.len(),
{
    lemma2_to64();
    if bytes.len() > 0 {
        let rest = bytes.drop_first();
        number_bound(rest);
        lemma_pow2_adds(8, 8 * rest.len());
        assert(8 * bytes.len() == 8 + 8 * rest.len());
    }
}

/// Bytes of one length that hold the same number are the same.
proof fn number_determines(a: Seq<u8>, b: Seq<u8>)
    requires
        a.len() == b.len(),
        number_in(a) == number_in(b),
    ensures
        a == b,
    decreases a.len(),
{
    if a.len() > 0 {
        number_not_negative(a.drop_first());
        number_not_negative(b.drop_first());
        assert(a[0] == b[0]);
        number_determines(a.drop_first(), b.drop_first());
        assert(a =~= seq![a[0]] + a.drop_first());
        assert(b =~= seq![b[0]] + b.drop_first());
    } else {
        assert(a =~= b);
    }
}

/// Different bytes of one length have different encodings.
pub proof fn encoding_is_injective(a: Seq<u8>, b: Seq<u8>)
    requires
        a.len() == b.len(),
        base32(a) == base32(b),
    ensures
        a == b,
{
    let n = digits_for(a.len() as int);
    if a.len() == 0 {
        assert(a =~= b);
    } else {
        number_bound(a);
        number_bound(b);
        assert(8 * a.len() <= 5 * n);
        vstd::arithmetic::power2::lemma_pow2_adds(8 * a.len(), (5 * n - 8 * a.len()) as nat);
        lemma_pow2_pos((5 * n - 8 * a.len()) as nat);
        let x = pow2(8 * a.len()) as int;
        let y = pow2((5 * n - 8 * a.len()) as nat) as int;
        assert(x <= x * y) by (nonlinear_arith)
            requires
                x >= 0,
                y >= 1,
        ;
        assert(pow2((5 * n) as nat) == x * y);
        assert forall|m: int| 0 <= m < n implies #[trigger] digit_at(number_in(a), m) == digit_at(
            number_in(b),
            m,
        ) by {
            let k = n - 1 - m;
            assert(n - 1 - k == m);
            assert(base32(a)[k] == alphabet()[digit_at(number_in(a), m)]);
            assert(base32(b)[k] == alphabet()[digit_at(number_in(b), m)]);
            digits_are_distinct(digit_at(number_in(a), m), digit_at(number_in(b), m));
        }
        digits_determine(number_in(a), number_in(b), n as nat);
        number_determines(a, b);
    }
}

/// No two digits of the alphabet are the same.
proof fn digits_are_distinct(x: int, y: int)
    requires
        0 <= x < 32,
        0 <= y < 32,
        alphabet()[x] == alphabet()[y],
    ensures
        x == y,
{
    reveal_strlit("0123456789abcdfghijklmnpqrsvwxyz");
}

/// No digit breaks a line.
pub proof fn hash_breaks_no_line(s: Seq<char>, i: int)
    requires
        in_alphabet(s),
        0 <= i < s.len(),
    ensures
        s[i] != '\n',
        s[i] != '\r',
{
    reveal_strlit("0123456789abcdfghijklmnpqrsvwxyz");
    assert(alphabet().contains(s[i]));
    let k = choose|k: int| 0 <= k < alphabet().len() && alphabet()[k] == s[i];
    assert(alphabet()[k] == s[i]);
}

} // verus!
