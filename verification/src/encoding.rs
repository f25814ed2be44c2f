//! Base64, in the two forms that keys, hashes and tokens are written in.

use base64::Engine;
use vstd::prelude::*;
use vstd::string::*;

use crate::text::white;

verus! {

/// An error of the base64 decoder.
#[verifier::external_type_specification]
#[verifier::external_body]
pub struct ExDecodeError(base64::DecodeError);

/// The digits of standard base64, by value.
pub open spec fn standard_digits() -> Seq<char> {
    "ABCDEFGHIJKLMNOPQRSTUVWXYZabcdefghijklmnopqrstuvwxyz0123456789+/"@
}

/// The digits of base64 for URLs, by value.
pub open spec fn url_digits() -> Seq<char> {
    "ABCDEFGHIJKLMNOPQRSTUVWXYZabcdefghijklmnopqrstuvwxyz0123456789-_"@
}

/// `bytes` in base64: three bytes make four digits, and a rest of one or two
/// bytes two or three, filled up to four with `=` where `padded`.
pub open spec fn base64_text(bytes: Seq<u8>, digits: Seq<char>, padded: bool) -> Seq<char>
    decreases bytes.len(),
{
    if bytes.len() == 0 {
        Seq::empty()
    } else if bytes.len() == 1 {
        seq![digits[bytes[0] as int / 4], digits[(bytes[0] as int % 4) * 16]] + if padded {
            seq!['=', '=']
        } else {
            Seq::empty()
        }
    } else if bytes.len() == 2 {
        seq![
            digits[bytes[0] as int / 4],
            digits[(bytes[0] as int % 4) * 16 + bytes[1] as int / 16],
            digits[(bytes[1] as int % 16) * 4],
        ] + if padded {
            seq!['=']
        } else {
            Seq::empty()
        }
    } else {
        seq![
            digits[bytes[0] as int / 4],
            digits[(bytes[0] as int % 4) * 16 + bytes[1] as int / 16],
            digits[(bytes[1] as int % 16) * 4 + bytes[2] as int / 64],
            digits[bytes[2] as int % 64],
        ] + base64_text(bytes.skip(3), digits, padded)
    }
}

/// `bytes` in standard base64 with padding.
pub open spec fn standard_base64(bytes: Seq<u8>) -> Seq<char> {
    base64_text(bytes, standard_digits(), true)
}

/// `bytes` in base64 for URLs, without padding.
pub open spec fn url_base64(bytes: Seq<u8>) -> Seq<char> {
    base64_text(bytes, url_digits(), false)
}

/// `base64::Engine::encode` of `STANDARD`: the standard digits, with padding.
#[verifier::external_body]
pub(crate) fn to_base64(bytes: &[u8]) -> (r: String)
    requires
        bytes@.len() <= 0xffff,
    ensures
        r@ == standard_base64(bytes@),
{
    base64::engine::general_purpose::STANDARD.encode(bytes)
}

/// `base64::Engine::decode` of `STANDARD`. The engine takes canonical text
/// only, padding and unused bits included, so it returns the bytes whose
/// encoding `text` is, and fails where there are none.
#[verifier::external_body]
pub(crate) fn from_base64(text: &str) -> (r: Result<Vec<u8>, base64::DecodeError>)
    ensures
        match r {
            Ok(bytes) => standard_base64(bytes@) == text@,
            Err(_) => forall|bytes: Seq<u8>| #[trigger] standard_base64(bytes) != text@,
        },
{
    base64::engine::general_purpose::STANDARD.decode(text)
}

/// `base64::Engine::decode` of `URL_SAFE_NO_PAD`: as [`from_base64`], for the
/// digits of URLs without padding.
#[verifier::external_body]
pub(crate) fn from_base64url(text: &str) -> (r: Result<Vec<u8>, base64::DecodeError>)
    ensures
        match r {
            Ok(bytes) => url_base64(bytes@) == text@,
            Err(_) => forall|bytes: Seq<u8>| #[trigger] url_base64(bytes) != text@,
        },
{
    base64::engine::general_purpose::URL_SAFE_NO_PAD.decode(text)
}

/// Sixty-four digits, all different and none of them `=`.
pub open spec fn proper_digits(digits: Seq<char>) -> bool {
    &&& digits.len() == 64
    &&& digits.no_duplicates()
    &&& forall|i: int| 0 <= i < 64 ==> #[trigger] digits[i] != '='
}

/// Different bytes have different texts.
pub proof fn base64_text_injective(
    a: Seq<u8>,
    b: Seq<u8>,
    digits: Seq<char>,
    padded: bool,
)
    requires
        proper_digits(digits),
        base64_text(a, digits, padded) == base64_text(b, digits, padded),
    ensures
        a == b,
    decreases a.len(),
{
    let s = base64_text(a, digits, padded);
    let t = base64_text(b, digits, padded);
    text_length(a, digits, padded);
    text_length(b, digits, padded);
    if a.len() == 0 || b.len() == 0 {
        assert(a =~= b);
    } else {
        assert(s[0] == t[0] && s[1] == t[1]);
        assert(s[0] == digits[a[0] as int / 4]);
        assert(t[0] == digits[b[0] as int / 4]);
        if a.len() == 1 {
            assert(b.len() == 1) by {
                if b.len() >= 2 {
                    assert(padded);
                    assert(s[2] == '=');
                    assert(t[2] != '=');
                }
            }
            assert(a[0] == b[0]);
            assert(a =~= b);
        } else if a.len() == 2 {
            assert(b.len() == 2) by {
                if b.len() == 1 {
                    assert(padded);
                    assert(t[2] == '=');
                    assert(s[2] != '=');
                } else if b.len() >= 3 {
                    assert(padded);
                    assert(s[3] == '=');
                    assert(t[3] != '=');
                }
            }
            assert(s[2] == t[2]);
            assert(a[0] == b[0]);
            assert(a[1] == b[1]);
            assert(a =~= b);
        } else {
            assert(b.len() >= 3) by {
                if b.len() == 1 {
                    assert(padded);
                    assert(t[2] == '=');
                    assert(s[2] != '=');
                } else if b.len() == 2 {
                    assert(padded);
                    assert(t[3] == '=');
                    assert(s[3] != '=');
                }
            }
            assert(s[2] == t[2] && s[3] == t[3]);
            assert(a[0] == b[0]);
            assert(a[1] == b[1]);
            assert(a[2] == b[2]);
            assert(s.skip(4) =~= base64_text(a.skip(3), digits, padded));
            assert(t.skip(4) =~= base64_text(b.skip(3), digits, padded));
            base64_text_injective(a.skip(3), b.skip(3), digits, padded);
            assert(a =~= seq![a[0], a[1], a[2]] + a.skip(3));
            assert(b =~= seq![b[0], b[1], b[2]] + b.skip(3));
        }
    }
}

/// How long a text is.
proof fn text_length(bytes: Seq<u8>, digits: Seq<char>, padded: bool)
    ensures
        ({
            let n = bytes.len();
            let rest = n % 3;
            base64_text(bytes, digits, padded).len() == (n / 3) * 4 + if rest == 0 {
                0nat
            } else if padded {
                4nat
            } else {
                (rest + 1) as nat
            }
        }),
    decreases bytes.len(),
{
    if bytes.len() >= 3 {
        text_length(bytes.skip(3), digits, padded);
    }
}

/// How long a standard text is.
pub proof fn base64_length(bytes: Seq<u8>)
    ensures
        standard_base64(bytes).len() == ((bytes.len() + 2) / 3) * 4,
{
    text_length(bytes, standard_digits(), true);
}

/// The standard digits are proper ones.
pub proof fn standard_digits_proper()
    ensures
        proper_digits(standard_digits()),
{
    reveal_strlit("ABCDEFGHIJKLMNOPQRSTUVWXYZabcdefghijklmnopqrstuvwxyz0123456789+/");
}

/// Different bytes have different standard texts.
pub proof fn base64_injective(a: Seq<u8>, b: Seq<u8>)
    requires
        standard_base64(a) == standard_base64(b),
    ensures
        a == b,
{
    standard_digits_proper();
    base64_text_injective(a, b, standard_digits(), true);
}

/// No text ends in white space.
pub proof fn base64_ends_black(bytes: Seq<u8>)
    requires
        bytes.len() > 0,
    ensures
        standard_base64(bytes).len() > 0,
        !white(standard_base64(bytes).last()),
    decreases bytes.len(),
{
    let digits = standard_digits();
    reveal_strlit("ABCDEFGHIJKLMNOPQRSTUVWXYZabcdefghijklmnopqrstuvwxyz0123456789+/");
    assert(forall|i: int| 0 <= i < 64 ==> !white(#[trigger] digits[i]));
    if bytes.len() > 3 {
        base64_ends_black(bytes.skip(3));
        let rest = standard_base64(bytes.skip(3));
        assert(standard_base64(bytes).last() == rest.last());
    } else if bytes.len() == 3 {
        assert(base64_text(bytes.skip(3), digits, true).len() == 0);
        assert(standard_base64(bytes).last() == digits[bytes[2] as int % 64]);
    }
}

/// The six bits that a digit stands for: letters, small letters and figures in
/// order, and then the two signs of either form.
pub open spec fn bits_of(c: char) -> int {
    if 'A' <= c && c <= 'Z' {
        c as int - 'A' as int
    } else if 'a' <= c && c <= 'z' {
        c as int - 'a' as int + 26
    } else if '0' <= c && c <= '9' {
        c as int - '0' as int + 52
    } else if c == '+' || c == '-' {
        62
    } else if c == '/' || c == '_' {
        63
    } else {
        -1
    }
}

/// The number that the four digits at `k` stand for.
pub open spec fn four_digits(text: Seq<char>, k: int) -> int {
    bits_of(text[k]) * 262144 + bits_of(text[k + 1]) * 4096 + bits_of(text[k + 2]) * 64 + bits_of(
        text[k + 3],
    )
}

/// Each digit stands for its place in the list.
spec fn stand_in_order(digits: Seq<char>) -> bool {
    digits.len() == 64 && forall|v: int| 0 <= v < 64 ==> bits_of(#[trigger] digits[v]) == v
}

proof fn full_groups(bytes: Seq<u8>, digits: Seq<char>, padded: bool, i: int)
    requires
        stand_in_order(digits),
        0 <= i,
        3 * i + 2 < bytes.len(),
    ensures
        4 * i + 3 < base64_text(bytes, digits, padded).len(),
        four_digits(base64_text(bytes, digits, padded), 4 * i) == bytes[3 * i] * 65536 + bytes[3 * i
            + 1] * 256 + bytes[3 * i + 2],
    decreases bytes.len(),
{
    let all = base64_text(bytes, digits, padded);
    let rest = base64_text(bytes.skip(3), digits, padded);
    if i > 0 {
        full_groups(bytes.skip(3), digits, padded, i - 1);
        assert(all[4 * i] == rest[4 * (i - 1)]);
        assert(all[4 * i + 1] == rest[4 * (i - 1) + 1]);
        assert(all[4 * i + 2] == rest[4 * (i - 1) + 2]);
        assert(all[4 * i + 3] == rest[4 * (i - 1) + 3]);
    }
}

proof fn last_group(bytes: Seq<u8>, digits: Seq<char>, padded: bool)
    requires
        stand_in_order(digits),
    ensures
        ({
            let n = bytes.len() as int;
            let k = n / 3 * 4;
            let text = base64_text(bytes, digits, padded);
            &&& n % 3 == 0 ==> text.len() == k
            &&& n % 3 == 1 ==> text.len() == (if padded { k + 4 } else { k + 2 })
                && bits_of(text[k]) * 64 + bits_of(text[k + 1]) == bytes[n - 1] * 16
                && (padded ==> text[k + 2] == '=' && text[k + 3] == '=')
            &&& n % 3 == 2 ==> text.len() == (if padded { k + 4 } else { k + 3 })
                && bits_of(text[k]) * 4096 + bits_of(text[k + 1]) * 64 + bits_of(text[k + 2]) == (
            bytes[n - 2] * 256 + bytes[n - 1]) * 4 && (padded ==> text[k + 3] == '=')
        }),
    decreases bytes.len(),
{
    if bytes.len() >= 3 {
        last_group(bytes.skip(3), digits, padded);
        let n = bytes.len() as int;
        let k = n / 3 * 4;
        let rest = base64_text(bytes.skip(3), digits, padded);
        let text = base64_text(bytes, digits, padded);
        assert((n - 3) / 3 * 4 == k - 4);
        assert(forall|m: int| 0 <= m < rest.len() ==> text[m + 4] == #[trigger] rest[m]);
        if n % 3 != 0 {
            assert(text[k - 4 + 4] == rest[k - 4]);
            assert(text[k - 3 + 4] == rest[k - 3]);
        }
        if n % 3 == 2 {
            assert(text[k - 2 + 4] == rest[k - 2]);
        }
        if padded && n % 3 != 0 {
            assert(text[k - 2 + 4] == rest[k - 2]);
            assert(text[k - 1 + 4] == rest[k - 1]);
        }
    }
}

proof fn text_is_of_digits(bytes: Seq<u8>, digits: Seq<char>, padded: bool, k: int)
    requires
        digits.len() == 64,
        0 <= k < base64_text(bytes, digits, padded).len(),
    ensures
        digits.contains(base64_text(bytes, digits, padded)[k]) || (padded && base64_text(
            bytes,
            digits,
            padded,
        )[k] == '='),
    decreases bytes.len(),
{
    let all = base64_text(bytes, digits, padded);
    if bytes.len() >= 3 && k >= 4 {
        text_is_of_digits(bytes.skip(3), digits, padded, k - 4);
        assert(all[k] == base64_text(bytes.skip(3), digits, padded)[k - 4]);
    }
}

proof fn digits_in_order()
    ensures
        stand_in_order(standard_digits()),
        stand_in_order(url_digits()),
        !standard_digits().contains('-') && !standard_digits().contains('_'),
        !url_digits().contains('+') && !url_digits().contains('/') && !url_digits().contains('='),
{
    reveal_strlit("ABCDEFGHIJKLMNOPQRSTUVWXYZabcdefghijklmnopqrstuvwxyz0123456789+/");
    reveal_strlit("ABCDEFGHIJKLMNOPQRSTUVWXYZabcdefghijklmnopqrstuvwxyz0123456789-_");
}

/// Every four digits stand for three bytes, in both forms.
pub proof fn four_digits_hold_three_bytes(bytes: Seq<u8>, i: int)
    requires
        0 <= i,
        3 * i + 2 < bytes.len(),
    ensures
        four_digits(standard_base64(bytes), 4 * i) == bytes[3 * i] * 65536 + bytes[3 * i + 1] * 256
            + bytes[3 * i + 2],
        four_digits(url_base64(bytes), 4 * i) == bytes[3 * i] * 65536 + bytes[3 * i + 1] * 256
            + bytes[3 * i + 2],
{
    digits_in_order();
    full_groups(bytes, standard_digits(), true, i);
    full_groups(bytes, url_digits(), false, i);
}

/// One or two bytes that are left over take two or three digits, whose lowest
/// bits are zero. The standard form fills up to four with `=`, and that for URLs
/// does not.
pub proof fn bytes_left_over_are_filled_up(bytes: Seq<u8>)
    ensures
        ({
            let n = bytes.len() as int;
            let k = n / 3 * 4;
            let text = standard_base64(bytes);
            let url = url_base64(bytes);
            &&& n % 3 == 0 ==> text.len() == k && url.len() == k
            &&& n % 3 == 1 ==> {
                &&& text.len() == k + 4
                &&& bits_of(text[k]) * 64 + bits_of(text[k + 1]) == bytes[n - 1] * 16
                &&& text[k + 2] == '='
                &&& text[k + 3] == '='
                &&& url.len() == k + 2
                &&& bits_of(url[k]) * 64 + bits_of(url[k + 1]) == bytes[n - 1] * 16
            }
            &&& n % 3 == 2 ==> {
                &&& text.len() == k + 4
                &&& bits_of(text[k]) * 4096 + bits_of(text[k + 1]) * 64 + bits_of(text[k + 2]) == (
                bytes[n - 2] * 256 + bytes[n - 1]) * 4
                &&& text[k + 3] == '='
                &&& url.len() == k + 3
                &&& bits_of(url[k]) * 4096 + bits_of(url[k + 1]) * 64 + bits_of(url[k + 2]) == (
                bytes[n - 2] * 256 + bytes[n - 1]) * 4
            }
        }),
{
    digits_in_order();
    last_group(bytes, standard_digits(), true);
    last_group(bytes, url_digits(), false);
}

/// The form for URLs holds nothing that means something else in one, and the
/// standard form none of the signs that stand in for it there.
pub proof fn forms_keep_to_their_signs(bytes: Seq<u8>, k: int)
    ensures
        0 <= k < url_base64(bytes).len() ==> url_base64(bytes)[k] != '+' && url_base64(bytes)[k]
            != '/' && url_base64(bytes)[k] != '=',
        0 <= k < standard_base64(bytes).len() ==> standard_base64(bytes)[k] != '-'
            && standard_base64(bytes)[k] != '_',
{
    digits_in_order();
    if 0 <= k < url_base64(bytes).len() {
        text_is_of_digits(bytes, url_digits(), false, k);
    }
    if 0 <= k < standard_base64(bytes).len() {
        text_is_of_digits(bytes, standard_digits(), true, k);
    }
}

} // verus!
