//! What the server tells any anonymous caller of itself: all that a client
//! needs for a whole configuration, once it is found fit to be written down.

use vstd::prelude::*;
use vstd::string::*;

use crate::auth::{trim_slashes, without_slashes};
use crate::client::push::{show_status, status_text};
use crate::number::{
    all_digits, decimal, decimal_reads_back, is_digit, parse_digits, read_unsigned, value_of,
};
use crate::text::{cut_at, opt_text, quoted, quoted_text, same, split_once, texts, to_chars, trim, trimmed};

verus! {

/// What the server tells.
#[derive(Debug)]
pub struct Discovery {
    /// Where the cache is served from, where the server knows.
    pub puller_endpoint: Option<String>,
    /// The public halves of its signing keys. There are several while one
    /// replaces another.
    pub public_keys: Vec<String>,
    /// How people log in, where they can.
    pub oidc: Option<Oidc>,
}

/// How people log in.
#[derive(Debug)]
pub struct Oidc {
    /// The issuer.
    pub issuer: String,
    /// The audience that a token must name.
    pub audience: String,
    /// The public client; without one nobody can log in.
    pub client_id: Option<String>,
}

/// A printable character of ASCII other than the blank.
pub open spec fn graphic(c: char) -> bool {
    '!' <= c && c <= '~'
}

/// A character that could end the line or the string that a URL is written
/// into.
pub open spec fn unfit_in_url(c: char) -> bool {
    !graphic(c) || c == '"' || c == '\\' || c == '{' || c == '}' || c == '`'
}

/// The first of the characters of `s` that do not fit into a URL.
pub open spec fn first_unfit(s: Seq<char>) -> Option<char>
    decreases s.len(),
{
    if s.len() == 0 {
        None
    } else if unfit_in_url(s[0]) {
        Some(s[0])
    } else {
        first_unfit(s.skip(1))
    }
}

fn find_unfit(raw: &str) -> (r: Option<char>)
    ensures
        r == first_unfit(raw@),
{
    let chars = to_chars(raw);
    let mut i: usize = 0;
    assert(raw@.skip(0) =~= raw@);
    while i < chars.len()
        invariant
            i <= chars@.len(),
            chars@ == raw@,
            first_unfit(raw@) == first_unfit(raw@.skip(i as int)),
        decreases chars@.len() - i,
    {
        let c = chars[i];
        assert(raw@.skip(i as int).skip(1) =~= raw@.skip(i as int + 1));
        if c < '!' || c > '~' || c == '"' || c == '\\' || c == '{' || c == '}' || c == '`' {
            return Some(c);
        }
        i += 1;
    }
    None
}

/// The scheme of a URL and its host where it has one, or why it is no URL.
pub uninterp spec fn url_parts(raw: Seq<char>) -> Result<(Seq<char>, Option<Seq<char>>), Seq<char>>;

/// `reqwest::Url::parse`: the scheme and the host of a URL. The parser spells
/// an address in one way only: an IPv4 address in four decimal numbers, an IPv6
/// address in brackets and shortened.
#[verifier::external_body]
fn parse_url(raw: &str) -> (r: Result<(String, Option<String>), String>)
    ensures
        match r {
            Ok(parts) => url_parts(raw@) == Ok::<(Seq<char>, Option<Seq<char>>), Seq<char>>(
                (parts.0@, opt_text(parts.1)),
            ),
            Err(e) => url_parts(raw@) == Err::<(Seq<char>, Option<Seq<char>>), Seq<char>>(e@),
        },
{
    match reqwest::Url::parse(raw) {
        Ok(url) => Ok((url.scheme().to_owned(), url.host_str().map(str::to_owned))),
        Err(e) => Err(e.to_string()),
    }
}

/// A character in quotes, escaped where a reader could not see it.
pub uninterp spec fn quoted_char(c: char) -> Seq<char>;

/// The `Debug` formatting of `char`: the character in single quotes, escaped
/// where it cannot be seen.
#[verifier::external_body]
fn quote_char(c: char) -> (r: String)
    ensures
        r@ == quoted_char(c),
{
    format!("{c:?}")
}

/// A decimal number of one byte, without a zero in front.
pub open spec fn octet(s: Seq<char>) -> bool {
    &&& 1 <= s.len() <= 3
    &&& s.len() > 1 ==> s[0] != '0'
    &&& s[0] != '+'
    &&& parse_digits(s, 255) is Some
}

fn is_octet(s: &str) -> (r: bool)
    ensures
        r == octet(s@),
{
    let chars = to_chars(s);
    let n: usize = chars.len();
    if n < 1 || n > 3 || chars[0] == '+' || (n > 1 && chars[0] == '0') {
        return false;
    }
    read_unsigned(s, 255).is_some()
}

/// An IPv4 address of the loopback network, `127.0.0.0/8`.
pub open spec fn loopback_v4(host: Seq<char>) -> bool {
    match cut_at(host, '.') {
        None => false,
        Some((a, rest)) => a == "127"@ && match cut_at(rest, '.') {
            None => false,
            Some((b, rest)) => octet(b) && match cut_at(rest, '.') {
                None => false,
                Some((c, d)) => octet(c) && octet(d),
            },
        },
    }
}

fn is_loopback_v4(host: &str) -> (r: bool)
    ensures
        r == loopback_v4(host@),
{
    match split_once(host, '.') {
        None => false,
        Some((a, rest)) => same(a, "127") && match split_once(rest, '.') {
            None => false,
            Some((b, rest)) => is_octet(b) && match split_once(rest, '.') {
                None => false,
                Some((c, d)) => is_octet(c) && is_octet(d),
            },
        },
    }
}

/// A host that is this machine: by its name, or by its address as the parser
/// spells it.
pub open spec fn is_loopback(host: Seq<char>) -> bool {
    host == "localhost"@ || host == "[::1]"@ || loopback_v4(host)
}

/// Why a URL is refused; `None` where it is not.
pub open spec fn url_problem(what: Seq<char>, raw: Seq<char>) -> Option<Seq<char>> {
    match first_unfit(raw) {
        Some(c) => Some(
            what + " "@ + quoted_text(raw) + " contains "@ + quoted_char(c)
                + "; URLs here must be plain printable ASCII"@,
        ),
        None => match url_parts(raw) {
            Err(e) => Some(what + " "@ + quoted_text(raw) + " is not a URL: "@ + e),
            Ok((scheme, Some(host))) => scheme_problem(what, raw, scheme, host),
            Ok((scheme, None)) => scheme_problem(what, raw, scheme, ""@),
        },
    }
}

/// Why a URL with this scheme and host is refused; `None` where it is not.
pub open spec fn scheme_problem(
    what: Seq<char>,
    raw: Seq<char>,
    scheme: Seq<char>,
    host: Seq<char>,
) -> Option<Seq<char>> {
    if scheme == "https"@ || (scheme == "http"@ && is_loopback(host)) {
        None
    } else {
        Some(
            what + " "@ + quoted_text(raw) + " uses "@ + scheme
                + "://; only https is accepted (plain http only to localhost) \u{2014} tokens and trusted signing keys must not cross the network in the clear"@,
        )
    }
}

/// Refuses a URL with a scheme other than `https`, or plain `http` to this
/// machine.
pub fn check_scheme(what: &str, raw: &str, scheme: &str, host: &str) -> (r: Result<(), String>)
    ensures
        match r {
            Ok(_) => scheme_problem(what@, raw@, scheme@, host@) is None,
            Err(m) => scheme_problem(what@, raw@, scheme@, host@) == Some(m@),
        },
{
    let here = same(host, "localhost") || same(host, "[::1]") || is_loopback_v4(host);
    if same(scheme, "https") || (same(scheme, "http") && here) {
        Ok(())
    } else {
        Err(
            what.to_owned().concat(" ").concat(quoted(raw).as_str()).concat(" uses ").concat(
                scheme,
            ).concat(
                "://; only https is accepted (plain http only to localhost) \u{2014} tokens and trusted signing keys must not cross the network in the clear",
            ),
        )
    }
}

/// Refuses a URL that is neither `https` nor plain `http` to this machine, or
/// that holds a character which could escape what it is written into. What is
/// looked at is the text itself: the parser drops line breaks without a word,
/// and it is the text that is written.
pub fn check_url(what: &str, raw: &str) -> (r: Result<(), String>)
    ensures
        match r {
            Ok(_) => url_problem(what@, raw@) is None,
            Err(m) => url_problem(what@, raw@) == Some(m@),
        },
{
    match find_unfit(raw) {
        Some(c) => {
            return Err(
                what.to_owned().concat(" ").concat(quoted(raw).as_str()).concat(
                    " contains ",
                ).concat(quote_char(c).as_str()).concat(
                    "; URLs here must be plain printable ASCII",
                ),
            );
        },
        None => {},
    }
    match parse_url(raw) {
        Err(e) => Err(
            what.to_owned().concat(" ").concat(quoted(raw).as_str()).concat(
                " is not a URL: ",
            ).concat(e.as_str()),
        ),
        Ok((scheme, Some(host))) => check_scheme(what, raw, scheme.as_str(), host.as_str()),
        Ok((scheme, None)) => check_scheme(what, raw, scheme.as_str(), ""),
    }
}

/// A URL that is accepted cannot end the line of a configuration that it is
/// written into, nor a quoted string.
pub proof fn accepted_urls_stay_in_place(what: Seq<char>, raw: Seq<char>, i: int)
    requires
        url_problem(what, raw) is None,
        0 <= i < raw.len(),
    ensures
        raw[i] != '\n',
        raw[i] != '\r',
        raw[i] != ' ',
        raw[i] != '"',
        raw[i] != '\\',
{
    no_unfit(raw, i);
}

proof fn no_unfit(s: Seq<char>, i: int)
    requires
        first_unfit(s) is None,
        0 <= i < s.len(),
    ensures
        !unfit_in_url(s[i]),
    decreases s.len(),
{
    if i > 0 {
        no_unfit(s.skip(1), i - 1);
        assert(s.skip(1)[i - 1] == s[i]);
    }
}

/// A letter or digit of ASCII.
pub open spec fn alphanumeric(c: char) -> bool {
    ('a' <= c && c <= 'z') || ('A' <= c && c <= 'Z') || ('0' <= c && c <= '9')
}

/// A character of the name of a key.
pub open spec fn key_name_char(c: char) -> bool {
    alphanumeric(c) || c == '.' || c == '_' || c == '-'
}

/// A digit of base64.
pub open spec fn base64_char(c: char) -> bool {
    alphanumeric(c) || c == '+' || c == '/'
}

/// `s` without the equals signs at its end.
pub open spec fn without_padding(s: Seq<char>) -> Seq<char>
    decreases s.len(),
{
    if s.len() > 0 && s.last() == '=' {
        without_padding(s.drop_last())
    } else {
        s
    }
}

/// A public key as Nix writes it: a name, a colon, and base64.
pub open spec fn is_key(key: Seq<char>) -> bool {
    match cut_at(key, ':') {
        None => false,
        Some((name, value)) => {
            let data = without_padding(value);
            &&& name.len() > 0
            &&& forall|i: int| 0 <= i < name.len() ==> key_name_char(#[trigger] name[i])
            &&& data.len() > 0
            &&& forall|i: int| 0 <= i < data.len() ==> base64_char(#[trigger] data[i])
        },
    }
}

fn is_alphanumeric(c: char) -> (r: bool)
    ensures
        r == alphanumeric(c),
{
    ('a' <= c && c <= 'z') || ('A' <= c && c <= 'Z') || ('0' <= c && c <= '9')
}

fn is_key_name(name: &str) -> (r: bool)
    ensures
        r == (name@.len() > 0 && forall|i: int|
            0 <= i < name@.len() ==> key_name_char(#[trigger] name@[i])),
{
    let chars = to_chars(name);
    if chars.len() == 0 {
        return false;
    }
    let mut i: usize = 0;
    while i < chars.len()
        invariant
            i <= chars@.len(),
            chars@ == name@,
            forall|k: int| 0 <= k < i ==> key_name_char(#[trigger] name@[k]),
        decreases chars@.len() - i,
    {
        let c = chars[i];
        if !(is_alphanumeric(c) || c == '.' || c == '_' || c == '-') {
            assert(!key_name_char(name@[i as int]));
            return false;
        }
        i += 1;
    }
    true
}

fn is_key_data(value: &str) -> (r: bool)
    ensures
        r == (without_padding(value@).len() > 0 && forall|i: int|
            0 <= i < without_padding(value@).len() ==> base64_char(
                #[trigger] without_padding(value@)[i],
            )),
{
    let chars = to_chars(value);
    let mut to: usize = chars.len();
    assert(value@.take(to as int) =~= value@);
    while to > 0 && chars[to - 1] == '='
        invariant
            to <= chars@.len(),
            chars@ == value@,
            without_padding(value@) == without_padding(value@.take(to as int)),
        decreases to,
    {
        assert(value@.take(to as int).drop_last() =~= value@.take(to - 1));
        to -= 1;
    }
    let ghost data = value@.take(to as int);
    assert(without_padding(value@) == data);
    if to == 0 {
        return false;
    }
    let mut i: usize = 0;
    while i < to
        invariant
            i <= to <= chars@.len(),
            chars@ == value@,
            data == value@.take(to as int),
            without_padding(value@) == data,
            forall|k: int| 0 <= k < i ==> base64_char(#[trigger] data[k]),
        decreases to - i,
    {
        let c = chars[i];
        assert(data[i as int] == c);
        if !(is_alphanumeric(c) || c == '+' || c == '/') {
            assert(!base64_char(data[i as int]));
            return false;
        }
        i += 1;
    }
    true
}

/// Why a key is refused; `None` where it is not.
pub open spec fn key_problem(key: Seq<char>) -> Option<Seq<char>> {
    if is_key(key) {
        None
    } else {
        Some("public key "@ + quoted_text(key) + " is not of the form `name:base64`"@)
    }
}

/// Refuses a key that is not a name, a colon, and base64: a blank would make
/// two keys of one, and a line feed would begin another setting.
pub fn check_key(key: &str) -> (r: Result<(), String>)
    ensures
        match r {
            Ok(_) => key_problem(key@) is None,
            Err(m) => key_problem(key@) == Some(m@),
        },
{
    let fine = match split_once(key, ':') {
        None => false,
        Some((name, value)) => is_key_name(name) && is_key_data(value),
    };
    if fine {
        Ok(())
    } else {
        Err(
            "public key ".to_owned().concat(quoted(key).as_str()).concat(
                " is not of the form `name:base64`",
            ),
        )
    }
}

/// A value that can be written between quotes.
pub open spec fn fit_value(s: Seq<char>) -> bool {
    s.len() > 0 && forall|i: int|
        0 <= i < s.len() ==> graphic(#[trigger] s[i]) && s[i] != '"' && s[i] != '\\'
}

/// Why a value is refused; `None` where it is not.
pub open spec fn value_problem(what: Seq<char>, value: Seq<char>) -> Option<Seq<char>> {
    if fit_value(value) {
        None
    } else {
        Some(
            what + " "@ + quoted_text(value)
                + " is empty or holds whitespace, quotes or control characters"@,
        )
    }
}

fn check_value(what: &str, value: &str) -> (r: Result<(), String>)
    ensures
        match r {
            Ok(_) => value_problem(what@, value@) is None,
            Err(m) => value_problem(what@, value@) == Some(m@),
        },
{
    let chars = to_chars(value);
    let mut fine = chars.len() > 0;
    let mut i: usize = 0;
    while i < chars.len() && fine
        invariant
            i <= chars@.len(),
            chars@ == value@,
            fine ==> chars@.len() > 0 && forall|k: int|
                0 <= k < i ==> graphic(#[trigger] value@[k]) && value@[k] != '"' && value@[k]
                    != '\\',
            !fine ==> !fit_value(value@),
        decreases chars@.len() - i,
    {
        let c = chars[i];
        if c < '!' || c > '~' || c == '"' || c == '\\' {
            assert(!(graphic(value@[i as int]) && value@[i as int] != '"' && value@[i as int]
                != '\\'));
            fine = false;
        }
        i += 1;
    }
    if fine {
        Ok(())
    } else {
        Err(
            what.to_owned().concat(" ").concat(quoted(value).as_str()).concat(
                " is empty or holds whitespace, quotes or control characters",
            ),
        )
    }
}

/// Why the first of `keys` that is refused is; `None` where none is.
pub open spec fn keys_problem(keys: Seq<Seq<char>>) -> Option<Seq<char>>
    decreases keys.len(),
{
    if keys.len() == 0 {
        None
    } else {
        match key_problem(keys[0]) {
            Some(m) => Some(m),
            None => keys_problem(keys.skip(1)),
        }
    }
}

fn check_keys(keys: &Vec<String>) -> (r: Result<(), String>)
    ensures
        match r {
            Ok(_) => keys_problem(texts(keys@)) is None,
            Err(m) => keys_problem(texts(keys@)) == Some(m@),
        },
{
    let ghost all = texts(keys@);
    let mut i: usize = 0;
    assert(all.skip(0) =~= all);
    while i < keys.len()
        invariant
            i <= keys@.len(),
            all == texts(keys@),
            keys_problem(all) == keys_problem(all.skip(i as int)),
        decreases keys@.len() - i,
    {
        assert(all.skip(i as int).skip(1) =~= all.skip(i as int + 1));
        assert(all.skip(i as int)[0] == keys@[i as int]@);
        match check_key(keys[i].as_str()) {
            Ok(_) => {},
            Err(m) => {
                return Err(m);
            },
        }
        i += 1;
    }
    assert(all.skip(i as int) =~= Seq::<Seq<char>>::empty());
    Ok(())
}

/// `a`, or else `b`.
pub open spec fn first_problem(a: Option<Seq<char>>, b: Option<Seq<char>>) -> Option<Seq<char>> {
    match a {
        Some(m) => Some(m),
        None => b,
    }
}

impl Discovery {
    /// Why the document is refused: the first thing that is wrong with it.
    pub open spec fn problem(self) -> Option<Seq<char>> {
        let puller = match self.puller_endpoint {
            None => None,
            Some(url) => url_problem("puller_endpoint"@, url@),
        };
        let login = match self.oidc {
            None => None,
            Some(oidc) => first_problem(
                url_problem("oidc.issuer"@, oidc.issuer@),
                first_problem(
                    value_problem("oidc.audience"@, oidc.audience@),
                    match oidc.client_id {
                        None => None,
                        Some(id) => value_problem("oidc.client_id"@, id@),
                    },
                ),
            ),
        };
        first_problem(puller, first_problem(keys_problem(texts(self.public_keys@)), login))
    }

    /// Refuses a document with a value that nobody should trust. The URL and
    /// the keys end up in the configuration of Nix, and the issuer is where
    /// people are sent to sign in.
    pub fn check(&self) -> (r: Result<(), String>)
        ensures
            match r {
                Ok(_) => self.problem() is None,
                Err(m) => self.problem() == Some(m@),
            },
    {
        match &self.puller_endpoint {
            None => {},
            Some(url) => match check_url("puller_endpoint", url.as_str()) {
                Ok(_) => {},
                Err(m) => {
                    return Err(m);
                },
            },
        }
        match check_keys(&self.public_keys) {
            Ok(_) => {},
            Err(m) => {
                return Err(m);
            },
        }
        match &self.oidc {
            None => Ok(()),
            Some(oidc) => {
                match check_url("oidc.issuer", oidc.issuer.as_str()) {
                    Ok(_) => {},
                    Err(m) => {
                        return Err(m);
                    },
                }
                match check_value("oidc.audience", oidc.audience.as_str()) {
                    Ok(_) => {},
                    Err(m) => {
                        return Err(m);
                    },
                }
                match &oidc.client_id {
                    None => Ok(()),
                    Some(id) => check_value("oidc.client_id", id.as_str()),
                }
            },
        }
    }
}

/// A key that is accepted is one word on one line.
pub proof fn accepted_keys_stay_in_place(key: Seq<char>, i: int)
    requires
        key_problem(key) is None,
        0 <= i < key.len(),
    ensures
        key[i] != '\n',
        key[i] != '\r',
        key[i] != ' ',
        key[i] != '"',
{
    let (name, value) = cut_at(key, ':')->0;
    crate::text::first_of_finds(key, ':');
    let k = crate::text::first_of(key, ':');
    if i < k {
        assert(name[i] == key[i]);
        assert(key_name_char(name[i]));
    } else if i > k {
        let j = i - k - 1;
        assert(value[j] == key[i]);
        padding_is_equals_signs(value, j);
        if j < without_padding(value).len() {
            assert(base64_char(without_padding(value)[j]));
        }
    }
}

proof fn padding_is_equals_signs(s: Seq<char>, i: int)
    requires
        0 <= i < s.len(),
    ensures
        without_padding(s).len() <= s.len(),
        if i < without_padding(s).len() {
            without_padding(s)[i] == s[i]
        } else {
            s[i] == '='
        },
    decreases s.len(),
{
    if s.last() == '=' {
        let init = s.drop_last();
        if i < init.len() {
            padding_is_equals_signs(init, i);
        } else if init.len() > 0 {
            padding_is_equals_signs(init, init.len() - 1);
        } else {
            assert(without_padding(init) == init);
        }
        assert(init.len() > i ==> init[i] == s[i]);
    }
}

/// Where the document is fetched from.
pub fn discovery_url(endpoint: &str) -> (r: String)
    ensures
        r@ == without_slashes(endpoint@) + "/api/v1/discovery"@,
{
    trim_slashes(endpoint).to_owned().concat("/api/v1/discovery")
}

/// Why an answer holds no document; `None` where it should.
pub open spec fn answer_problem(url: Seq<char>, status: u16, body: Seq<char>) -> Option<Seq<char>> {
    if status == 404 || status == 401 {
        Some(
            url + " returned "@ + status_text(status)
                + " \u{2014} this Pusher predates `garret login <url>` (discovery needs no token, so a 401 here means its auth layer covers every route).\nUpgrade the server, or write the config by hand."@,
        )
    } else if !(200 <= status <= 299) {
        Some("discovery failed with "@ + status_text(status) + ": "@ + trimmed(body))
    } else {
        None
    }
}

/// Judges the status of the answer. A server that has no such route, or asks
/// for a token on it, is older than the client, and that is said: it would look
/// like a mistyped URL or a wrong password otherwise.
pub fn judge(url: &str, status: u16, body: &str) -> (r: Result<(), String>)
    requires
        100 <= status <= 999,
    ensures
        match r {
            Ok(_) => answer_problem(url@, status, body@) is None,
            Err(m) => answer_problem(url@, status, body@) == Some(m@),
        },
{
    if status == 404 || status == 401 {
        return Err(
            url.to_owned().concat(" returned ").concat(show_status(status).as_str()).concat(
                " \u{2014} this Pusher predates `garret login <url>` (discovery needs no token, so a 401 here means its auth layer covers every route).\nUpgrade the server, or write the config by hand.",
            ),
        );
    }
    if status < 200 || status > 299 {
        return Err(
            "discovery failed with ".to_owned().concat(show_status(status).as_str()).concat(
                ": ",
            ).concat(trim(body)),
        );
    }
    Ok(())
}

/// A URL is refused for a character that is no printable one of ASCII or that
/// could end a string, and the first of them is named; no other character is
/// held against it.
pub proof fn urls_are_refused_for_their_first_bad_character(s: Seq<char>, i: int)
    ensures
        first_unfit(s) is None <==> forall|k: int|
            0 <= k < s.len() ==> '!' <= #[trigger] s[k] <= '~' && s[k] != '"' && s[k] != '\\' && s[k]
                != '{' && s[k] != '}' && s[k] != '`',
        0 <= i < s.len() && unfit_in_url(s[i]) && (forall|k: int|
            0 <= k < i ==> !unfit_in_url(#[trigger] s[k])) ==> first_unfit(s) == Some(s[i]),
    decreases s.len(),
{
    if s.len() > 0 {
        let rest = s.skip(1);
        urls_are_refused_for_their_first_bad_character(rest, i - 1);
        if first_unfit(s) is None {
            assert forall|k: int| 0 <= k < s.len() implies '!' <= #[trigger] s[k] <= '~' && s[k]
                != '"' && s[k] != '\\' && s[k] != '{' && s[k] != '}' && s[k] != '`' by {
                if k > 0 {
                    assert(rest[k - 1] == s[k]);
                }
            }
        }
        if forall|k: int|
            0 <= k < s.len() ==> '!' <= #[trigger] s[k] <= '~' && s[k] != '"' && s[k] != '\\' && s[k]
                != '{' && s[k] != '}' && s[k] != '`' {
            assert forall|k: int| 0 <= k < rest.len() implies '!' <= #[trigger] rest[k] <= '~'
                && rest[k] != '"' && rest[k] != '\\' && rest[k] != '{' && rest[k] != '}' && rest[k]
                != '`' by {
                assert(s[k + 1] == rest[k]);
            }
            assert('!' <= s[0] <= '~');
        }
        if 0 < i < s.len() && unfit_in_url(s[i]) && (forall|k: int|
            0 <= k < i ==> !unfit_in_url(#[trigger] s[k])) {
            assert(!unfit_in_url(s[0]));
            assert(rest[i - 1] == s[i]);
            assert forall|k: int| 0 <= k < i - 1 implies !unfit_in_url(#[trigger] rest[k]) by {
                assert(!unfit_in_url(s[k + 1]));
            }
        }
    }
}

/// Plain HTTP is accepted to this machine only, HTTPS to any, and nothing else
/// to any.
pub proof fn only_https_crosses_the_network(
    what: Seq<char>,
    raw: Seq<char>,
    scheme: Seq<char>,
    host: Seq<char>,
)
    ensures
        scheme == "https"@ ==> scheme_problem(what, raw, scheme, host) is None,
        scheme == "http"@ && (host == "localhost"@ || host == "[::1]"@) ==> scheme_problem(
            what,
            raw,
            scheme,
            host,
        ) is None,
        scheme == "http"@ && scheme_problem(what, raw, scheme, host) is None ==> host
            == "localhost"@ || host == "[::1]"@ || "127."@.is_prefix_of(host),
        scheme != "https"@ && scheme != "http"@ ==> scheme_problem(what, raw, scheme, host) is Some,
{
    reveal_strlit("https");
    reveal_strlit("http");
    reveal_strlit("127");
    reveal_strlit("127.");
    assert("http"@.len() != "https"@.len());
    if loopback_v4(host) {
        crate::text::first_of_finds(host, '.');
        let n = crate::text::first_of(host, '.');
        assert(host.take(n) == "127"@);
        assert(host[3] == '.');
        assert("127."@ =~= host.subrange(0, 4)) by {
            assert forall|k: int| 0 <= k < 3 implies host[k] == "127"@[k] by {
                assert(host.take(n)[k] == host[k]);
            }
        }
    }
}

/// Every address of the loopback network is this machine.
pub proof fn loopback_addresses_are_this_machine(b: u8, c: u8, d: u8)
    ensures
        is_loopback(
            "127"@ + seq!['.'] + (decimal(b as nat) + seq!['.'] + (decimal(c as nat) + seq!['.']
                + decimal(d as nat))),
        ),
{
    reveal_strlit("127");
    let last = decimal(c as nat) + seq!['.'] + decimal(d as nat);
    let rest = decimal(b as nat) + seq!['.'] + last;
    let host = "127"@ + seq!['.'] + rest;
    bytes_are_octets(b);
    bytes_are_octets(c);
    bytes_are_octets(d);
    cut_behind("127"@, '.', rest);
    cut_behind(decimal(b as nat), '.', last);
    cut_behind(decimal(c as nat), '.', decimal(d as nat));
    assert(loopback_v4(host));
}

proof fn cut_behind(front: Seq<char>, c: char, rest: Seq<char>)
    requires
        forall|k: int| 0 <= k < front.len() ==> front[k] != c,
    ensures
        cut_at(front + seq![c] + rest, c) == Some((front, rest)),
{
    let s = front + seq![c] + rest;
    let n = front.len() as int;
    assert(s[n] == c);
    assert forall|k: int| 0 <= k < n implies s[k] != c by {
        assert(s[k] == front[k]);
    }
    crate::text::first_of_is(s, c, n);
    assert(s.take(n) =~= front);
    assert(s.skip(n + 1) =~= rest);
}

proof fn bytes_are_octets(b: u8)
    ensures
        octet(decimal(b as nat)),
        forall|k: int| 0 <= k < decimal(b as nat).len() ==> decimal(b as nat)[k] != '.',
{
    let d = decimal(b as nat);
    decimal_reads_back(b as nat);
    assert forall|k: int| 0 <= k < d.len() implies d[k] != '.' by {
        assert(is_digit(d[k]));
    }
    reveal_with_fuel(decimal, 3);
    assert(is_digit(d[0]));
}

/// A key is accepted if, and only if, it is a name of letters, digits and a few
/// signs, a colon, and digits of base64 with any padding behind them.
pub proof fn keys_are_names_and_base64(key: Seq<char>, name: Seq<char>, data: Seq<char>, pads: nat)
    ensures
        key == name + seq![':'] + (data + equals_signs(pads)) && is_plain_key(name, data)
            ==> key_problem(key) is None,
        key_problem(key) is None ==> exists|n: Seq<char>, d: Seq<char>, p: nat| #[trigger]
            is_plain_key(n, d) && key == n + seq![':'] + (d + #[trigger] equals_signs(p)),
{
    let padding = equals_signs(pads);
    if key == name + seq![':'] + (data + padding) && is_plain_key(name, data) {
        cut_behind(name, ':', data + padding);
        cut_padding(data, pads);
    }
    if key_problem(key) is None {
        let (n, value) = cut_at(key, ':')->0;
        crate::text::first_of_finds(key, ':');
        let d = without_padding(value);
        padding_comes_last(value);
        let p = (value.len() - d.len()) as nat;
        assert(is_plain_key(n, d));
        assert(value =~= d + equals_signs(p));
        assert(key =~= n + seq![':'] + value);
    }
}

/// Nothing but `n` equals signs.
pub open spec fn equals_signs(n: nat) -> Seq<char> {
    Seq::new(n, |i: int| '=')
}

/// The name and the data of a key.
pub open spec fn is_plain_key(name: Seq<char>, data: Seq<char>) -> bool {
    &&& name.len() > 0
    &&& data.len() > 0
    &&& forall|i: int|
        0 <= i < name.len() ==> 'a' <= #[trigger] name[i] <= 'z' || 'A' <= name[i] <= 'Z' || '0'
            <= name[i] <= '9' || name[i] == '.' || name[i] == '_' || name[i] == '-'
    &&& forall|i: int|
        0 <= i < data.len() ==> 'a' <= #[trigger] data[i] <= 'z' || 'A' <= data[i] <= 'Z' || '0'
            <= data[i] <= '9' || data[i] == '+' || data[i] == '/'
}

proof fn cut_padding(data: Seq<char>, pads: nat)
    requires
        data.len() > 0,
        data.last() != '=',
    ensures
        without_padding(data + equals_signs(pads)) == data,
    decreases pads,
{
    let s = data + equals_signs(pads);
    if pads == 0 {
        assert(s =~= data);
    } else {
        cut_padding(data, (pads - 1) as nat);
        assert(s.drop_last() =~= data + equals_signs((pads - 1) as nat));
    }
}

proof fn padding_comes_last(s: Seq<char>)
    ensures
        without_padding(s).len() <= s.len(),
        without_padding(s) == s.take(without_padding(s).len() as int),
        forall|i: int| without_padding(s).len() <= i < s.len() ==> s[i] == '=',
    decreases s.len(),
{
    if s.len() > 0 && s.last() == '=' {
        let init = s.drop_last();
        padding_comes_last(init);
        let n = without_padding(s).len() as int;
        assert(init.take(n) =~= s.take(n));
        assert forall|i: int| n <= i < s.len() implies s[i] == '=' by {
            if i < init.len() {
                assert(init[i] == '=');
            }
        }
    } else {
        assert(s.take(s.len() as int) =~= s);
    }
}

/// Keys are accepted together if, and only if, each of them is.
proof fn keys_are_judged_one_by_one(keys: Seq<Seq<char>>)
    ensures
        keys_problem(keys) is None <==> forall|i: int|
            0 <= i < keys.len() ==> key_problem(#[trigger] keys[i]) is None,
    decreases keys.len(),
{
    if keys.len() > 0 {
        let rest = keys.skip(1);
        keys_are_judged_one_by_one(rest);
        if keys_problem(keys) is None {
            assert forall|i: int| 0 <= i < keys.len() implies key_problem(#[trigger] keys[i]) is None by {
                if i > 0 {
                    assert(rest[i - 1] == keys[i]);
                }
            }
        }
        if forall|i: int| 0 <= i < keys.len() ==> key_problem(#[trigger] keys[i]) is None {
            assert(key_problem(keys[0]) is None);
            assert forall|i: int| 0 <= i < rest.len() implies key_problem(#[trigger] rest[i]) is None by {
                assert(keys[i + 1] == rest[i]);
            }
        }
    }
}

/// A document is accepted if, and only if, every value in it is: the URLs, each
/// key, and what people log in with.
pub proof fn documents_are_accepted_whole(d: Discovery)
    ensures
        d.problem() is None <==> {
            &&& d.puller_endpoint is Some ==> url_problem("puller_endpoint"@, d.puller_endpoint->0@) is None
            &&& forall|i: int|
                0 <= i < d.public_keys@.len() ==> key_problem((#[trigger] d.public_keys@[i])@) is None
            &&& d.oidc is Some ==> {
                &&& url_problem("oidc.issuer"@, d.oidc->0.issuer@) is None
                &&& is_plain_value(d.oidc->0.audience@)
                &&& d.oidc->0.client_id is Some ==> is_plain_value(d.oidc->0.client_id->0@)
            }
        },
{
    let keys = texts(d.public_keys@);
    keys_are_judged_one_by_one(keys);
    if forall|i: int| 0 <= i < keys.len() ==> key_problem(#[trigger] keys[i]) is None {
        assert forall|i: int| 0 <= i < d.public_keys@.len() implies key_problem(
            (#[trigger] d.public_keys@[i])@,
        ) is None by {
            assert(keys[i] == d.public_keys@[i]@);
        }
    }
    if forall|i: int|
        0 <= i < d.public_keys@.len() ==> key_problem((#[trigger] d.public_keys@[i])@) is None {
        assert forall|i: int| 0 <= i < keys.len() implies key_problem(#[trigger] keys[i]) is None by {
            assert(d.public_keys@[i]@ == keys[i]);
        }
    }
    if d.oidc is Some {
        plain_values(d.oidc->0.audience@);
        if d.oidc->0.client_id is Some {
            plain_values(d.oidc->0.client_id->0@);
        }
    }
}

/// A value of printable characters of ASCII, without blanks, quotes and
/// backslashes.
pub open spec fn is_plain_value(s: Seq<char>) -> bool {
    &&& s.len() > 0
    &&& forall|i: int|
        0 <= i < s.len() ==> '!' <= #[trigger] s[i] <= '~' && s[i] != '"' && s[i] != '\\'
}

proof fn plain_values(s: Seq<char>)
    ensures
        fit_value(s) <==> is_plain_value(s),
{
}

/// A document is read from an answer that is a success, and from no other.
pub proof fn only_successes_hold_documents(url: Seq<char>, status: u16, body: Seq<char>)
    ensures
        answer_problem(url, status, body) is None <==> 200 <= status <= 299,
{
}

/// Digits without a needless zero in front are the decimal of what they stand for.
proof fn digits_spell_their_number(s: Seq<char>)
    requires
        s.len() > 0,
        all_digits(s),
        s.len() > 1 ==> s[0] != '0',
    ensures
        value_of(s) >= 0,
        s.len() > 1 ==> value_of(s) >= 10,
        s[0] != '0' ==> value_of(s) > 0,
        decimal(value_of(s) as nat) == s,
    decreases s.len(),
{
    let front = s.drop_last();
    let d = s.last();
    assert(is_digit(s[s.len() - 1]));
    if s.len() == 1 {
        assert(front =~= Seq::<char>::empty());
        assert(value_of(front) == 0);
        assert(s =~= seq![d]);
        let v = value_of(s);
        assert(v == d as int - '0' as int);
        assert(crate::number::digit_char(v) == d);
    } else {
        assert forall|i: int| 0 <= i < front.len() implies is_digit(#[trigger] front[i]) by {
            assert(s[i] == front[i]);
        }
        assert(front[0] == s[0]);
        digits_spell_their_number(front);
        let v = value_of(s);
        let f = value_of(front);
        assert(v == f * 10 + (d as int - '0' as int));
        assert(f >= 1);
        assert(v / 10 == f && v % 10 == d as int - '0' as int);
        assert(crate::number::digit_char(v % 10) == d);
        assert(decimal(v as nat) =~= front.push(d));
        assert(front.push(d) =~= s);
    }
}

/// Only the addresses of the loopback network count as such: 127 and three more
/// bytes, each in decimal and without needless zeros.
pub proof fn only_loopback_addresses_count(host: Seq<char>)
    requires
        loopback_v4(host),
    ensures
        exists|b: u8, c: u8, d: u8|
            host == "127"@ + seq!['.'] + (#[trigger] decimal(b as nat) + seq!['.'] + (
            #[trigger] decimal(c as nat) + seq!['.'] + #[trigger] decimal(d as nat))),
{
    let (x, rest) = cut_at(host, '.')->0;
    let (y, tail) = cut_at(rest, '.')->0;
    let (z, w) = cut_at(tail, '.')->0;
    cut_and_joined(host, '.', x, rest);
    cut_and_joined(rest, '.', y, tail);
    cut_and_joined(tail, '.', z, w);
    digits_spell_their_number(y);
    digits_spell_their_number(z);
    digits_spell_their_number(w);
    let b = value_of(y) as u8;
    let c = value_of(z) as u8;
    let d = value_of(w) as u8;
    assert(decimal(b as nat) == y && decimal(c as nat) == z && decimal(d as nat) == w);
}

proof fn cut_and_joined(s: Seq<char>, c: char, a: Seq<char>, b: Seq<char>)
    requires
        cut_at(s, c) == Some((a, b)),
    ensures
        s == a + seq![c] + b,
{
    crate::text::first_of_finds(s, c);
    assert(s =~= a + seq![c] + b);
}

} // verus!
