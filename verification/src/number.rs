//! Integers in decimal.

use vstd::prelude::*;
use vstd::string::*;

use crate::text::{to_chars, white};

verus! {

/// The digit for `d`.
pub open spec fn digit_char(d: int) -> char {
    if d == 0 {
        '0'
    } else if d == 1 {
        '1'
    } else if d == 2 {
        '2'
    } else if d == 3 {
        '3'
    } else if d == 4 {
        '4'
    } else if d == 5 {
        '5'
    } else if d == 6 {
        '6'
    } else if d == 7 {
        '7'
    } else if d == 8 {
        '8'
    } else {
        '9'
    }
}

/// `c` is a decimal digit.
pub open spec fn is_digit(c: char) -> bool {
    '0' <= c && c <= '9'
}

/// What the digit `c` stands for.
pub open spec fn digit_value(c: char) -> int {
    c as int - '0' as int
}

/// `n` in decimal.
pub open spec fn decimal(n: nat) -> Seq<char>
    decreases n,
{
    if n < 10 {
        seq![digit_char(n as int)]
    } else {
        decimal(n / 10).push(digit_char((n % 10) as int))
    }
}

/// `n` in decimal, with its sign where it is negative.
pub open spec fn decimal_int(n: int) -> Seq<char> {
    if n < 0 {
        seq!['-'] + decimal((-n) as nat)
    } else {
        decimal(n as nat)
    }
}

/// Every character of `s` is a digit.
pub open spec fn all_digits(s: Seq<char>) -> bool {
    forall|i: int| 0 <= i < s.len() ==> is_digit(#[trigger] s[i])
}

/// What a string of digits stands for.
pub open spec fn value_of(s: Seq<char>) -> int
    decreases s.len(),
{
    if s.len() == 0 {
        0
    } else {
        value_of(s.drop_last()) * 10 + digit_value(s.last())
    }
}

/// What a string of one or more digits stands for, if it is at most `max`.
pub open spec fn parse_digits(s: Seq<char>, max: int) -> Option<int> {
    if s.len() > 0 && all_digits(s) && value_of(s) <= max {
        Some(value_of(s))
    } else {
        None
    }
}

/// What `s` stands for as an unsigned integer up to `max`: digits, behind an
/// optional plus sign.
pub open spec fn parse_unsigned(s: Seq<char>, max: int) -> Option<int> {
    if s.len() > 0 && s[0] == '+' {
        parse_digits(s.drop_first(), max)
    } else {
        parse_digits(s, max)
    }
}

/// What `s` stands for as a signed integer of 64 bits.
pub open spec fn parse_signed(s: Seq<char>) -> Option<int> {
    if s.len() > 0 && s[0] == '-' {
        match parse_digits(s.drop_first(), i64::MAX + 1) {
            Some(v) => Some(-v),
            None => None,
        }
    } else {
        parse_unsigned(s, i64::MAX as int)
    }
}

fn digit(d: u64) -> (r: char)
    requires
        d < 10,
    ensures
        r == digit_char(d as int),
{
    if d == 0 {
        '0'
    } else if d == 1 {
        '1'
    } else if d == 2 {
        '2'
    } else if d == 3 {
        '3'
    } else if d == 4 {
        '4'
    } else if d == 5 {
        '5'
    } else if d == 6 {
        '6'
    } else if d == 7 {
        '7'
    } else if d == 8 {
        '8'
    } else {
        '9'
    }
}

/// `n` in decimal.
pub fn show(n: u64) -> (r: String)
    ensures
        r@ == decimal(n as nat),
    decreases n,
{
    if n < 10 {
        let mut out = String::new();
        out.push(digit(n));
        assert(out@ =~= seq![digit_char(n as int)]);
        out
    } else {
        let mut out = show(n / 10);
        out.push(digit(n % 10));
        out
    }
}

/// `n` in decimal.
pub fn show_signed(n: i64) -> (r: String)
    ensures
        r@ == decimal_int(n as int),
{
    if n < 0 {
        let size: u64 = (-(n as i128)) as u64;
        proof {
            reveal_strlit("-");
            assert("-"@ =~= seq!['-']);
        }
        "-".to_owned().concat(show(size).as_str())
    } else {
        show(n as u64)
    }
}

/// The value of a string of digits does not fall as it grows.
proof fn value_grows(s: Seq<char>, k: int)
    requires
        all_digits(s),
        0 <= k <= s.len(),
    ensures
        0 <= value_of(s.take(k)) <= value_of(s),
    decreases s.len() - k, s.len(),
{
    if k == s.len() {
        assert(s.take(k) =~= s);
        if s.len() > 0 {
            let t = s.drop_last();
            assert(all_digits(t)) by {
                assert forall|i: int| 0 <= i < t.len() implies is_digit(#[trigger] t[i]) by {
                    assert(s[i] == t[i]);
                }
            }
            value_grows(t, t.len() as int);
            assert(t.take(t.len() as int) =~= t);
            assert(is_digit(s[s.len() - 1]));
        }
    } else {
        value_grows(s, k + 1);
        assert(s.take(k + 1).drop_last() =~= s.take(k));
        assert(is_digit(s[k]));
        let t = s.take(k);
        assert(all_digits(t)) by {
            assert forall|i: int| 0 <= i < t.len() implies is_digit(#[trigger] t[i]) by {
                assert(s[i] == t[i]);
            }
        }
        value_grows(t, t.len() as int);
        assert(t.take(t.len() as int) =~= t);
    }
}

/// What the digits `chars[from..]` stand for, if it is at most `max`.
fn read_digits(chars: &Vec<char>, from: usize, max: u64) -> (r: Option<u64>)
    requires
        from <= chars@.len(),
    ensures
        match r {
            Some(v) => parse_digits(chars@.skip(from as int), max as int) == Some(v as int),
            None => parse_digits(chars@.skip(from as int), max as int) is None,
        },
{
    let ghost s = chars@.skip(from as int);
    if from == chars.len() {
        return None;
    }
    let mut value: u64 = 0;
    let mut i: usize = from;
    while i < chars.len()
        invariant
            from <= i <= chars@.len(),
            s == chars@.skip(from as int),
            value <= max,
            value == value_of(s.take(i - from)),
            all_digits(s.take(i - from)),
        decreases chars@.len() - i,
    {
        let c = chars[i];
        let ghost k = i - from;
        assert(s[k] == c);
        if !(c >= '0' && c <= '9') {
            assert(!is_digit(s[k]));
            return None;
        }
        let d: u32 = c as u32 - '0' as u32;
        let next: u128 = value as u128 * 10 + d as u128;
        proof {
            assert(s.take(k + 1).drop_last() =~= s.take(k));
            assert(s.take(k + 1).last() == c);
            assert(next == value_of(s.take(k + 1)));
        }
        if next > max as u128 {
            proof {
                if all_digits(s) {
                    value_grows(s, k + 1);
                }
            }
            return None;
        }
        value = next as u64;
        i += 1;
        proof {
            assert(all_digits(s.take(k + 1))) by {
                assert forall|j: int| 0 <= j < k + 1 implies is_digit(#[trigger] s.take(k + 1)[j]) by {
                    if j < k {
                        assert(s.take(k)[j] == s.take(k + 1)[j]);
                    }
                }
            }
        }
    }
    assert(s.take(i - from) =~= s);
    Some(value)
}

/// What `s` stands for as an unsigned integer up to `max`.
pub fn read_unsigned(s: &str, max: u64) -> (r: Option<u64>)
    ensures
        match r {
            Some(v) => parse_unsigned(s@, max as int) == Some(v as int),
            None => parse_unsigned(s@, max as int) is None,
        },
{
    let chars = to_chars(s);
    if chars.len() > 0 && chars[0] == '+' {
        assert(chars@.skip(1) =~= s@.drop_first());
        read_digits(&chars, 1, max)
    } else {
        assert(chars@.skip(0) =~= s@);
        read_digits(&chars, 0, max)
    }
}

/// What `s` stands for as a signed integer of 64 bits.
pub fn read_signed(s: &str) -> (r: Option<i64>)
    ensures
        match r {
            Some(v) => parse_signed(s@) == Some(v as int),
            None => parse_signed(s@) is None,
        },
{
    let chars = to_chars(s);
    if chars.len() > 0 && chars[0] == '-' {
        assert(chars@.skip(1) =~= s@.drop_first());
        match read_digits(&chars, 1, 0x8000_0000_0000_0000) {
            Some(v) => {
                let negative: i128 = -(v as i128);
                Some(negative as i64)
            },
            None => None,
        }
    } else {
        match read_unsigned(s, 0x7fff_ffff_ffff_ffff) {
            Some(v) => Some(v as i64),
            None => None,
        }
    }
}

/// A decimal is made of digits, and stands for the number it was made from.
pub proof fn decimal_reads_back(n: nat)
    ensures
        decimal(n).len() > 0,
        all_digits(decimal(n)),
        value_of(decimal(n)) == n,
    decreases n,
{
    if n >= 10 {
        decimal_reads_back(n / 10);
        let s = decimal(n);
        assert(s.drop_last() =~= decimal(n / 10));
        assert forall|i: int| 0 <= i < s.len() implies is_digit(#[trigger] s[i]) by {
            if i < s.len() - 1 {
                assert(decimal(n / 10)[i] == s[i]);
            }
        }
    } else {
        let s = decimal(n);
        assert(s.drop_last() =~= Seq::<char>::empty());
        assert(s.last() == digit_char(n as int));
        assert(value_of(s.drop_last()) == 0);
    }
}

/// A signed integer of 64 bits is read back from its decimal.
pub proof fn decimal_int_reads_back(n: i64)
    ensures
        parse_signed(decimal_int(n as int)) == Some(n as int),
        decimal_int(n as int).len() > 0,
        forall|i: int|
            0 <= i < decimal_int(n as int).len() ==> (#[trigger] decimal_int(n as int)[i]) == '-'
                || is_digit(decimal_int(n as int)[i]),
{
    let s = decimal_int(n as int);
    if n < 0 {
        decimal_reads_back((-n) as nat);
        assert(s.drop_first() =~= decimal((-n) as nat));
        assert forall|i: int| 0 <= i < s.len() implies (#[trigger] s[i]) == '-' || is_digit(s[i]) by {
            if i > 0 {
                assert(decimal((-n) as nat)[i - 1] == s[i]);
            }
        }
    } else {
        decimal_reads_back(n as nat);
        assert(is_digit(s[0]));
    }
}

/// A number begins and ends with no white space.
pub proof fn decimal_is_not_white(n: int)
    ensures
        decimal_int(n).len() > 0,
        !white(decimal_int(n)[0]),
        !white(decimal_int(n).last()),
{
    let m = if n < 0 {
        (-n) as nat
    } else {
        n as nat
    };
    decimal_reads_back(m);
    let d = decimal(m);
    assert(is_digit(d[0]));
    assert(is_digit(d[d.len() - 1]));
}

/// A number is read with a plus sign or without, up to the largest that fits, and
/// a text with anything but digits in it is none.
pub proof fn only_numbers_are_read(n: nat, max: int, s: Seq<char>, k: int)
    ensures
        parse_unsigned(decimal(n), max) == if n <= max {
            Some(n as int)
        } else {
            None
        },
        parse_unsigned(seq!['+'] + decimal(n), max) == parse_unsigned(decimal(n), max),
        parse_unsigned(Seq::empty(), max) is None,
        1 <= k < s.len() && !('0' <= s[k] <= '9') ==> parse_unsigned(s, max) is None && parse_signed(
            s,
        ) is None,
        s.len() > 0 && !('0' <= s[0] <= '9') && s[0] != '+' ==> parse_unsigned(s, max) is None,
        parse_signed(Seq::empty()) is None,
{
    decimal_reads_back(n);
    let d = decimal(n);
    assert(is_digit(d[0]));
    assert((seq!['+'] + d).drop_first() =~= d);
    if 1 <= k < s.len() && !('0' <= s[k] <= '9') {
        assert(!is_digit(s[k]));
        let t = s.drop_first();
        assert(t[k - 1] == s[k]);
        assert(!is_digit(t[k - 1]));
    }
    if s.len() > 0 && !('0' <= s[0] <= '9') {
        assert(!is_digit(s[0]));
    }
}

} // verus!
