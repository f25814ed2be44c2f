//! TOML documents: what is read of one, and the plain ones that are written.

use vstd::prelude::*;
use vstd::string::*;

use crate::text::{join, joined, opt_text, texts};

verus! {

/// A value of a document that was read.
#[verifier::external_type_specification]
#[verifier::external_body]
pub struct ExValue(toml::Value);

/// A value of TOML.
pub enum Toml {
    /// A string.
    Text(Seq<char>),
    /// An integer.
    Number(i64),
    /// An array.
    List(Seq<Toml>),
    /// A table.
    Table(Map<Seq<char>, Toml>),
    /// Anything else.
    Other,
}

/// What a value is.
pub uninterp spec fn held(value: toml::Value) -> Toml;

/// The values that `values` are.
pub open spec fn all_held(values: Seq<toml::Value>) -> Seq<Toml> {
    values.map_values(|v: toml::Value| held(v))
}

/// The table that a document holds, or why it is no document.
pub uninterp spec fn toml_document(text: Seq<char>) -> Result<Map<Seq<char>, Toml>, Seq<char>>;

/// `s` as a string of TOML.
pub uninterp spec fn toml_string(s: Seq<char>) -> Seq<char>;

/// One line of a plain document.
pub enum Line {
    /// Nothing.
    Blank,
    /// A comment.
    Remark(Seq<char>),
    /// A setting that is a string.
    Text(Seq<char>, Seq<char>),
    /// A setting that is a list of strings.
    Texts(Seq<char>, Seq<Seq<char>>),
}

/// The strings of TOML in a list.
pub open spec fn toml_strings(values: Seq<Seq<char>>) -> Seq<char> {
    joined(values.map_values(|v: Seq<char>| toml_string(v)), ", "@)
}

/// How a line is written.
pub open spec fn line_text(line: Line) -> Seq<char> {
    match line {
        Line::Blank => "\n"@,
        Line::Remark(words) => "# "@ + words + "\n"@,
        Line::Text(key, value) => key + " = "@ + toml_string(value) + "\n"@,
        Line::Texts(key, values) => key + " = ["@ + toml_strings(values) + "]\n"@,
    }
}

/// How lines are written.
pub open spec fn lines_text(lines: Seq<Line>) -> Seq<char>
    decreases lines.len(),
{
    if lines.len() == 0 {
        Seq::empty()
    } else {
        lines_text(lines.drop_last()) + line_text(lines.last())
    }
}

/// A document of some lines and a section with more.
pub open spec fn document_text(front: Seq<Line>, section: Seq<char>, lines: Seq<Line>) -> Seq<
    char,
> {
    lines_text(front) + "["@ + section + "]\n"@ + lines_text(lines)
}

/// The settings on the lines.
pub open spec fn settings(lines: Seq<Line>) -> Map<Seq<char>, Toml>
    decreases lines.len(),
{
    if lines.len() == 0 {
        Map::empty()
    } else {
        let others = settings(lines.drop_last());
        match lines.last() {
            Line::Text(key, value) => others.insert(key, Toml::Text(value)),
            Line::Texts(key, values) => others.insert(
                key,
                Toml::List(values.map_values(|v: Seq<char>| Toml::Text(v))),
            ),
            _ => others,
        }
    }
}

/// A character that a comment can hold.
pub open spec fn shows(c: char) -> bool {
    c >= ' ' && c != '\u{7f}'
}

/// A character of plain text.
pub open spec fn plain_char(c: char) -> bool {
    ' ' <= c && c <= '~'
}

/// Printable ASCII.
pub open spec fn plain(s: Seq<char>) -> bool {
    forall|i: int| 0 <= i < s.len() ==> plain_char(#[trigger] s[i])
}

/// A key that needs no quotes: letters and underscores.
pub open spec fn bare(key: Seq<char>) -> bool {
    &&& key.len() > 0
    &&& forall|i: int| 0 <= i < key.len() ==> 'a' <= #[trigger] key[i] <= 'z' || key[i] == '_'
}

/// The line can stand in a plain document: its words and strings are plain, and
/// its key is bare.
pub open spec fn line_fits(line: Line) -> bool {
    match line {
        Line::Blank => true,
        Line::Remark(words) => forall|i: int| 0 <= i < words.len() ==> shows(#[trigger] words[i]),
        Line::Text(key, value) => bare(key) && plain(value),
        Line::Texts(key, values) => bare(key) && forall|i: int|
            0 <= i < values.len() ==> plain(#[trigger] values[i]),
    }
}

/// Every line can stand there, and no key stands on two of them.
pub open spec fn lines_fit(lines: Seq<Line>) -> bool
    decreases lines.len(),
{
    lines.len() > 0 ==> {
        let others = lines.drop_last();
        &&& lines_fit(others)
        &&& line_fits(lines.last())
        &&& match lines.last() {
            Line::Text(key, _) => !settings(others).dom().contains(key),
            Line::Texts(key, _) => !settings(others).dom().contains(key),
            _ => true,
        }
    }
}

/// The lines make a plain document.
pub open spec fn document_fits(front: Seq<Line>, section: Seq<char>, lines: Seq<Line>) -> bool {
    &&& lines_fit(front)
    &&& lines_fit(lines)
    &&& bare(section)
    &&& !settings(front).dom().contains(section)
}

/// What a plain document holds.
pub open spec fn document_table(front: Seq<Line>, section: Seq<char>, lines: Seq<Line>) -> Map<
    Seq<char>,
    Toml,
> {
    settings(front).insert(section, Toml::Table(settings(lines)))
}

/// `toml::from_str` into a table: what the document holds, or why it is none.
/// A plain document is read as it was written: settings before the first header
/// are the table's own, those behind it are the section's, comments and blank
/// lines are nothing, and a string of TOML is the string that it was made of.
#[verifier::external_body]
pub(crate) fn read_document(text: &str) -> (r: Result<toml::Value, String>)
    ensures
        match r {
            Ok(v) => toml_document(text@) is Ok && held(v) == Toml::Table(
                toml_document(text@)->Ok_0,
            ),
            Err(e) => toml_document(text@) == Err::<Map<Seq<char>, Toml>, Seq<char>>(e@),
        },
        forall|front: Seq<Line>, section: Seq<char>, lines: Seq<Line>|
            document_fits(front, section, lines) && text@ == #[trigger] document_text(
                front,
                section,
                lines,
            ) ==> r is Ok && held(r->Ok_0) == Toml::Table(document_table(front, section, lines)),
{
    toml::from_str::<toml::Table>(text).map(toml::Value::Table).map_err(|e| e.to_string())
}

/// `toml::Value::as_str`: the string that a value is.
#[verifier::external_body]
pub(crate) fn text_in(value: &toml::Value) -> (r: Option<String>)
    ensures
        opt_text(r) == match held(*value) {
            Toml::Text(t) => Some(t),
            _ => None,
        },
{
    value.as_str().map(str::to_owned)
}

/// `toml::Value::as_integer`: the integer that a value is.
#[verifier::external_body]
pub(crate) fn number_in(value: &toml::Value) -> (r: Option<i64>)
    ensures
        r == match held(*value) {
            Toml::Number(n) => Some(n),
            _ => None,
        },
{
    value.as_integer()
}

/// `toml::Value::as_array`: the members of the array that a value is.
#[verifier::external_body]
pub(crate) fn list_in(value: &toml::Value) -> (r: Option<Vec<toml::Value>>)
    ensures
        match held(*value) {
            Toml::List(l) => r is Some && all_held(r->0@) == l,
            _ => r is None,
        },
{
    value.as_array().cloned()
}

/// `toml::Value::get` with a key: what stands under it in the table that a
/// value is.
#[verifier::external_body]
pub(crate) fn member(value: &toml::Value, key: &str) -> (r: Option<toml::Value>)
    ensures
        match held(*value) {
            Toml::Table(m) => match r {
                Some(v) => m.dom().contains(key@) && held(v) == m[key@],
                None => !m.dom().contains(key@),
            },
            _ => r is None,
        },
{
    value.get(key).cloned()
}

/// `toml::Value::as_table` and the table's keys: those of the table that a value
/// is.
#[verifier::external_body]
pub(crate) fn keys_of(value: &toml::Value) -> (r: Option<Vec<String>>)
    ensures
        match held(*value) {
            Toml::Table(m) => r is Some && texts(r->0@).to_set() == m.dom(),
            _ => r is None,
        },
{
    value.as_table().map(|t| t.keys().cloned().collect())
}

/// The `Display` formatting of a `toml::Value` that holds a string: the string
/// in quotes, with what needs it escaped.
#[verifier::external_body]
fn q(value: &str) -> (r: String)
    ensures
        r@ == toml_string(value@),
{
    toml::Value::from(value).to_string()
}

/// Another line is written behind the others.
pub proof fn lines_grow(lines: Seq<Line>, line: Line)
    ensures
        lines_text(lines.push(line)) == lines_text(lines) + line_text(line),
{
    assert(lines.push(line).drop_last() =~= lines);
}

/// A comment.
pub(crate) fn remark_line(words: &str) -> (r: String)
    ensures
        r@ == line_text(Line::Remark(words@)),
{
    "# ".to_owned().concat(words).concat("\n")
}

/// A setting that is a string.
pub(crate) fn text_line(key: &str, value: &str) -> (r: String)
    ensures
        r@ == line_text(Line::Text(key@, value@)),
{
    key.to_owned().concat(" = ").concat(q(value).as_str()).concat("\n")
}

/// A setting that is a list of strings.
pub(crate) fn texts_line(key: &str, values: &Vec<String>) -> (r: String)
    ensures
        r@ == line_text(Line::Texts(key@, texts(values@))),
{
    let mut quoted: Vec<String> = Vec::new();
    let mut i: usize = 0;
    while i < values.len()
        invariant
            i <= values@.len(),
            quoted@.len() == i,
            forall|k: int| 0 <= k < i ==> (#[trigger] quoted@[k])@ == toml_string(values@[k]@),
        decreases values@.len() - i,
    {
        quoted.push(q(values[i].as_str()));
        i += 1;
    }
    assert(texts(quoted@) =~= texts(values@).map_values(|v: Seq<char>| toml_string(v)));
    key.to_owned().concat(" = [").concat(join(&quoted, ", ").as_str()).concat("]\n")
}

/// Why settings are refused.
#[derive(Debug)]
pub enum SettingError {
    /// They are no document, for this reason.
    Syntax(String),
    /// Nothing is called that.
    Unknown(String),
    /// This has to be there.
    Missing(String),
    /// This is not what it has to be.
    Wrong(String),
}

impl SettingError {
    /// What is said of it.
    pub fn message(&self) -> (r: String)
        ensures
            r@ == match self {
                SettingError::Syntax(why) => why@,
                SettingError::Unknown(key) => "unknown field `"@ + key@ + "`"@,
                SettingError::Missing(key) => "missing field `"@ + key@ + "`"@,
                SettingError::Wrong(key) => "invalid value for `"@ + key@ + "`"@,
            },
    {
        match self {
            SettingError::Syntax(why) => why.clone(),
            SettingError::Unknown(key) => "unknown field `".to_owned().concat(
                key.as_str(),
            ).concat("`"),
            SettingError::Missing(key) => "missing field `".to_owned().concat(
                key.as_str(),
            ).concat("`"),
            SettingError::Wrong(key) => "invalid value for `".to_owned().concat(
                key.as_str(),
            ).concat("`"),
        }
    }

    /// What stands under `key` is not what it has to be.
    pub open spec fn is_wrong(self, key: Seq<char>) -> bool {
        match self {
            SettingError::Wrong(k) => k@ == key,
            _ => false,
        }
    }
}

/// What a setting has to be.
pub enum Kind {
    /// A string.
    Text,
    /// A list of strings.
    Texts,
    /// An integer between these, which may be either.
    Number(int, int),
    /// A table.
    Table,
}

/// Every member is a string.
pub open spec fn all_texts(list: Seq<Toml>) -> bool {
    forall|i: int| 0 <= i < list.len() ==> #[trigger] list[i] is Text
}

/// The value is what it has to be.
pub open spec fn is_of_kind(kind: Kind, value: Toml) -> bool {
    match kind {
        Kind::Text => value is Text,
        Kind::Texts => value is List && all_texts(value->List_0),
        Kind::Number(low, high) => value is Number && low <= value->Number_0 <= high,
        Kind::Table => value is Table,
    }
}

/// The string under a key.
pub open spec fn text_at(t: Map<Seq<char>, Toml>, key: Seq<char>) -> Option<Seq<char>> {
    if t.dom().contains(key) && t[key] is Text {
        Some(t[key]->Text_0)
    } else {
        None
    }
}

/// The integer under a key.
pub open spec fn number_at(t: Map<Seq<char>, Toml>, key: Seq<char>) -> Option<int> {
    if t.dom().contains(key) && t[key] is Number {
        Some(t[key]->Number_0 as int)
    } else {
        None
    }
}

/// The list of strings under a key.
pub open spec fn texts_at(t: Map<Seq<char>, Toml>, key: Seq<char>) -> Option<Seq<Seq<char>>> {
    if t.dom().contains(key) && t[key] is List {
        Some(t[key]->List_0.map_values(|v: Toml| v->Text_0))
    } else {
        None
    }
}

/// The value, where there is one.
pub open spec fn value_or<T>(value: Option<T>, default: T) -> T {
    match value {
        Some(v) => v,
        None => default,
    }
}

/// What an optional list of strings holds.
pub open spec fn opt_texts(v: Option<Vec<String>>) -> Option<Seq<Seq<char>>> {
    match v {
        Some(v) => Some(texts(v@)),
        None => None,
    }
}

/// What stands under `key`, if anything does, is of its kind.
pub open spec fn fits_at(t: Map<Seq<char>, Toml>, key: Seq<char>, kind: Kind) -> bool {
    t.dom().contains(key) ==> is_of_kind(kind, t[key])
}

/// The string under a key.
pub(crate) fn text_field(value: &toml::Value, key: &str) -> (r: Result<
    Option<String>,
    SettingError,
>)
    requires
        held(*value) is Table,
    ensures
        match r {
            Ok(s) => fits_at(held(*value)->Table_0, key@, Kind::Text) && text_at(
                held(*value)->Table_0,
                key@,
            ) == opt_text(s),
            Err(e) => !fits_at(held(*value)->Table_0, key@, Kind::Text) && e.is_wrong(key@),
        },
{
    match member(value, key) {
        None => Ok(None),
        Some(v) => match text_in(&v) {
            Some(s) => Ok(Some(s)),
            None => Err(SettingError::Wrong(key.to_owned())),
        },
    }
}

/// The string under a key that has to be there.
pub(crate) fn text_needed(value: &toml::Value, key: &str) -> (r: Result<String, SettingError>)
    requires
        held(*value) is Table,
    ensures
        match r {
            Ok(s) => text_at(held(*value)->Table_0, key@) == Some(s@),
            Err(SettingError::Missing(k)) => !held(*value)->Table_0.dom().contains(key@) && k@
                == key@,
            Err(e) => !fits_at(held(*value)->Table_0, key@, Kind::Text) && e.is_wrong(key@),
        },
{
    match text_field(value, key) {
        Ok(Some(s)) => Ok(s),
        Ok(None) => Err(SettingError::Missing(key.to_owned())),
        Err(e) => Err(e),
    }
}

/// The string under a key, or else `default`.
pub(crate) fn text_or(value: &toml::Value, key: &str, default: String) -> (r: Result<
    String,
    SettingError,
>)
    requires
        held(*value) is Table,
    ensures
        match r {
            Ok(s) => fits_at(held(*value)->Table_0, key@, Kind::Text) && s@ == value_or(
                text_at(held(*value)->Table_0, key@),
                default@,
            ),
            Err(e) => !fits_at(held(*value)->Table_0, key@, Kind::Text) && e.is_wrong(key@),
        },
{
    match text_field(value, key) {
        Ok(Some(s)) => Ok(s),
        Ok(None) => Ok(default),
        Err(e) => Err(e),
    }
}

/// The integer from `low` to `high` under a key, or else `default`.
pub(crate) fn number_or(value: &toml::Value, key: &str, low: i64, high: u64, default: i64) -> (r:
    Result<i64, SettingError>)
    requires
        held(*value) is Table,
    ensures
        match r {
            Ok(n) => fits_at(
                held(*value)->Table_0,
                key@,
                Kind::Number(low as int, high as int),
            ) && n == value_or(number_at(held(*value)->Table_0, key@), default as int),
            Err(e) => !fits_at(
                held(*value)->Table_0,
                key@,
                Kind::Number(low as int, high as int),
            ) && e.is_wrong(key@),
        },
{
    match member(value, key) {
        None => Ok(default),
        Some(v) => match number_in(&v) {
            Some(n) => if low <= n && n as i128 <= high as i128 {
                Ok(n)
            } else {
                Err(SettingError::Wrong(key.to_owned()))
            },
            None => Err(SettingError::Wrong(key.to_owned())),
        },
    }
}

/// The list of strings under a key.
pub(crate) fn texts_field(value: &toml::Value, key: &str) -> (r: Result<
    Option<Vec<String>>,
    SettingError,
>)
    requires
        held(*value) is Table,
    ensures
        match r {
            Ok(l) => fits_at(held(*value)->Table_0, key@, Kind::Texts) && texts_at(
                held(*value)->Table_0,
                key@,
            ) == opt_texts(l),
            Err(e) => !fits_at(held(*value)->Table_0, key@, Kind::Texts) && e.is_wrong(key@),
        },
{
    let list = match member(value, key) {
        None => {
            return Ok(None);
        },
        Some(v) => match list_in(&v) {
            Some(list) => list,
            None => {
                return Err(SettingError::Wrong(key.to_owned()));
            },
        },
    };
    let ghost all = all_held(list@);
    let mut out: Vec<String> = Vec::new();
    let mut i: usize = 0;
    while i < list.len()
        invariant
            i <= list@.len(),
            all == all_held(list@),
            held(*value) is Table,
            held(*value)->Table_0.dom().contains(key@),
            held(*value)->Table_0[key@] == Toml::List(all),
            out@.len() == i,
            forall|k: int| 0 <= k < i ==> #[trigger] all[k] == Toml::Text(out@[k]@),
        decreases list@.len() - i,
    {
        assert(all[i as int] == held(list@[i as int]));
        match text_in(&list[i]) {
            Some(s) => {
                out.push(s);
            },
            None => {
                return Err(SettingError::Wrong(key.to_owned()));
            },
        }
        i += 1;
    }
    assert(texts(out@) =~= all.map_values(|v: Toml| v->Text_0));
    Ok(Some(out))
}

/// The list of strings under a key, or else `default`.
pub(crate) fn texts_or(value: &toml::Value, key: &str, default: Vec<String>) -> (r: Result<
    Vec<String>,
    SettingError,
>)
    requires
        held(*value) is Table,
    ensures
        match r {
            Ok(l) => fits_at(held(*value)->Table_0, key@, Kind::Texts) && texts(l@) == value_or(
                texts_at(held(*value)->Table_0, key@),
                texts(default@),
            ),
            Err(e) => !fits_at(held(*value)->Table_0, key@, Kind::Texts) && e.is_wrong(key@),
        },
{
    match texts_field(value, key) {
        Ok(Some(l)) => Ok(l),
        Ok(None) => Ok(default),
        Err(e) => Err(e),
    }
}

} // verus!
