//! The client's configuration, and how logging in writes it.

use vstd::prelude::*;
use vstd::string::*;

use crate::client::discovery::Discovery;
use crate::client::document::{
    bare, document_fits, document_text, held, is_of_kind, keys_of, line_fits, line_text,
    lines_fit, lines_grow, lines_text, member, number_at, number_or, opt_texts, plain,
    read_document, remark_line, settings, text_at, text_field, text_line, text_needed, text_or,
    texts_at, texts_field, texts_line, texts_or, toml_document, toml_string, toml_strings, value_or,
    Kind, Line, SettingError, Toml,
};
use crate::text::{ends_with, occurs, occurs_in_more, opt_str, opt_text, same, texts};

verus! {

/// The whole configuration.
#[derive(Debug)]
pub struct Config {
    /// Where to push to.
    pub endpoint: String,
    /// How to get a token.
    pub oidc: Oidc,
    /// Uploads at once. They wait for the network, so that this is no number of
    /// cores.
    pub jobs: usize,
    /// The zstd level of NARs.
    pub zstd_level: i32,
    /// Tries of one path beyond the first.
    pub max_retries: u32,
    /// Where the cache is served from.
    pub puller_endpoint: Option<String>,
    /// The public halves of the cache's signing keys.
    pub public_keys: Vec<String>,
    /// What one of these keys has signed is not pushed.
    pub upstream_keys: Vec<String>,
    /// The settings of the store watcher.
    pub watch: Watch,
}

/// The settings of the store watcher.
#[derive(Debug)]
pub struct Watch {
    /// A file with `client_id:client_secret` of this machine.
    pub credentials_file: Option<String>,
    /// The Nix database.
    pub nix_db: String,
    /// Where the cursor is kept.
    pub cursor_path: String,
    /// Seconds between two looks at the database.
    pub poll_interval_secs: u64,
    /// In place of [`Config::upstream_keys`], for the watcher alone.
    pub upstream_keys: Option<Vec<String>>,
    /// What holds one of these is never pushed.
    pub exclude_patterns: Vec<String>,
    /// Tries of one path before it is given up for the time being.
    pub max_attempts: u32,
    /// Where the watcher listens to be woken.
    pub socket_path: String,
}

/// Which issuer to get tokens from, and what to ask it for.
#[derive(Debug)]
pub struct Oidc {
    /// The issuer.
    pub issuer: String,
    /// The public client; only logging in needs one.
    pub client_id: Option<String>,
    /// The audience of the tokens.
    pub audience: String,
    /// The resource to name in requests for tokens; not every issuer takes one.
    pub resource: Option<String>,
}

/// The Nix database.
pub fn nix_db() -> (r: String)
    ensures
        r@ == "/nix/var/nix/db/db.sqlite"@,
{
    "/nix/var/nix/db/db.sqlite".to_owned()
}

/// Where the cursor is kept.
pub fn cursor_path() -> (r: String)
    ensures
        r@ == "/var/lib/garret/watcher-cursor"@,
{
    "/var/lib/garret/watcher-cursor".to_owned()
}

/// Where the watcher listens to be woken.
pub fn socket_path() -> (r: String)
    ensures
        r@ == "/run/garret/watch.sock"@,
{
    "/run/garret/watch.sock".to_owned()
}

/// Seconds between two looks at the database.
pub fn poll_interval() -> (r: u64)
    ensures
        r == 30,
{
    30
}

/// The key of the cache that everyone has.
pub fn upstream_keys() -> (r: Vec<String>)
    ensures
        texts(r@) == seq!["cache.nixos.org-1"@],
{
    let mut r: Vec<String> = Vec::new();
    r.push("cache.nixos.org-1".to_owned());
    assert(texts(r@) =~= seq!["cache.nixos.org-1"@]);
    r
}

/// Tries of one path before it is given up for the time being.
pub fn max_attempts() -> (r: u32)
    ensures
        r == 5,
{
    5
}

/// Uploads at once.
pub fn jobs() -> (r: usize)
    ensures
        r == 8,
{
    8
}

/// The zstd level of NARs.
pub fn zstd_level() -> (r: i32)
    ensures
        r == 3,
{
    3
}

/// Tries of one path beyond the first.
pub fn max_retries() -> (r: u32)
    ensures
        r == 5,
{
    5
}

impl Default for Watch {
    fn default() -> (r: Self)
        ensures
            r.credentials_file is None,
            r.nix_db@ == "/nix/var/nix/db/db.sqlite"@,
            r.cursor_path@ == "/var/lib/garret/watcher-cursor"@,
            r.poll_interval_secs == 30,
            r.upstream_keys is None,
            r.exclude_patterns@.len() == 0,
            r.max_attempts == 5,
            r.socket_path@ == "/run/garret/watch.sock"@,
    {
        Watch {
            credentials_file: None,
            nix_db: nix_db(),
            cursor_path: cursor_path(),
            poll_interval_secs: poll_interval(),
            upstream_keys: None,
            exclude_patterns: Vec::new(),
            max_attempts: max_attempts(),
            socket_path: socket_path(),
        }
    }
}

/// `name` in the directory `dir`.
pub open spec fn in_dir(dir: Seq<char>, name: Seq<char>) -> Seq<char> {
    if dir.len() == 0 || dir.last() == '/' {
        dir + name
    } else {
        dir + "/"@ + name
    }
}

/// `name` in the directory `dir`.
pub fn join_path(dir: &str, name: &str) -> (r: String)
    ensures
        r@ == in_dir(dir@, name@),
{
    proof {
        reveal_strlit("/");
        if dir@.len() > 0 && dir@.last() == '/' {
            assert(dir@.subrange(dir@.len() - 1, dir@.len() as int) =~= "/"@);
        }
        if "/"@.is_suffix_of(dir@) {
            assert(dir@.last() == "/"@[0]);
        }
    }
    if dir.is_empty() || ends_with(dir, "/") {
        dir.to_owned().concat(name)
    } else {
        dir.to_owned().concat("/").concat(name)
    }
}

/// Where configurations are kept: where the environment says, or else in the
/// user's home; `None` where neither is known.
pub fn config_home(xdg_config_home: Option<&str>, home: Option<&str>) -> (r: Option<String>)
    ensures
        opt_text(r) == match (opt_str(xdg_config_home), opt_str(home)) {
            (Some(dir), _) => Some(dir),
            (None, Some(home)) => Some(in_dir(home, ".config"@)),
            (None, None) => None,
        },
{
    match xdg_config_home {
        Some(dir) => Some(dir.to_owned()),
        None => match home {
            Some(home) => Some(join_path(home, ".config")),
            None => None,
        },
    }
}

/// The file in the client's directory under `config_home`.
fn own_file(config_home: &str, name: &str) -> (r: String)
    ensures
        r@ == in_dir(in_dir(config_home@, "garret"@), name@),
{
    join_path(join_path(config_home, "garret").as_str(), name)
}

/// Where the client's configuration is.
pub fn path(config_home: &str) -> (r: String)
    ensures
        r@ == in_dir(in_dir(config_home@, "garret"@), "config.toml"@),
{
    own_file(config_home, "config.toml")
}

/// Where the refresh token is.
pub fn token_path(config_home: &str) -> (r: String)
    ensures
        r@ == in_dir(in_dir(config_home@, "garret"@), "token.json"@),
{
    own_file(config_home, "token.json")
}

/// What is said where there is no configuration: only logging in makes one.
pub fn missing_text(path: &str) -> (r: String)
    ensures
        r@ == "no config at "@ + path@
            + " \u{2014} run `garret login <pusher-url>` to create one"@,
{
    "no config at ".to_owned().concat(path).concat(
        " \u{2014} run `garret login <pusher-url>` to create one",
    )
}

/// Why no configuration can be made of what the server tells.
#[derive(Debug, Clone, Copy, PartialEq, Eq, Structural)]
pub enum RenderError {
    /// It names no issuer.
    NoOidc,
    /// It names no public client.
    NoClientId,
}

impl RenderError {
    /// What is said of it.
    pub fn message(self) -> (r: String)
        ensures
            r@ == match self {
                RenderError::NoOidc =>
                    "the server's discovery document has no oidc section: no issuer sets a `client_id`, so the device flow has nothing to identify itself as"@,
                RenderError::NoClientId =>
                    "the server advertised an issuer with no `client_id`, which `garret login` requires"@,
            },
    {
        match self {
            RenderError::NoOidc =>
                "the server's discovery document has no oidc section: no issuer sets a `client_id`, so the device flow has nothing to identify itself as".to_owned(),
            RenderError::NoClientId =>
                "the server advertised an issuer with no `client_id`, which `garret login` requires".to_owned(),
        }
    }
}

/// The line that says where the cache is served from.
pub open spec fn puller_line(puller: Option<Seq<char>>) -> Line {
    match puller {
        Some(url) => Line::Text("puller_endpoint"@, url),
        None => Line::Remark(
            "puller_endpoint \u{2014} the server advertised none; `use`/`list`/`tree` need it"@,
        ),
    }
}

/// The line with the keys.
pub open spec fn keys_line(keys: Seq<Seq<char>>) -> Line {
    if keys.len() == 0 {
        Line::Remark("public_keys \u{2014} the server advertised none; `garret use` needs them"@)
    } else {
        Line::Texts("public_keys"@, keys)
    }
}

/// What the configuration that logging in writes says of the cache.
pub open spec fn cache_lines(
    endpoint: Seq<char>,
    puller: Option<Seq<char>>,
    keys: Seq<Seq<char>>,
) -> Seq<Line> {
    seq![
        Line::Remark("Written by `garret login`. Re-run with --force to regenerate."@),
        Line::Text("endpoint"@, endpoint),
        puller_line(puller),
        keys_line(keys),
        Line::Blank,
    ]
}

/// What it says of tokens.
pub open spec fn oidc_lines(
    issuer: Seq<char>,
    client_id: Seq<char>,
    audience: Seq<char>,
) -> Seq<Line> {
    seq![
        Line::Text("issuer"@, issuer),
        Line::Text("client_id"@, client_id),
        Line::Text("audience"@, audience),
        Line::Blank,
        Line::Remark("Optional: jobs = 8, zstd_level = 3, max_retries = 5"@),
    ]
}

/// The configuration that logging in writes.
pub open spec fn config_text(
    endpoint: Seq<char>,
    puller: Option<Seq<char>>,
    keys: Seq<Seq<char>>,
    issuer: Seq<char>,
    client_id: Seq<char>,
    audience: Seq<char>,
) -> Seq<char> {
    document_text(
        cache_lines(endpoint, puller, keys),
        "oidc"@,
        oidc_lines(issuer, client_id, audience),
    )
}

/// The configuration that logging in writes: what the server tells, and no
/// more, so that it does not hold settings that only a daemon reads. What the
/// server does not tell is named in a comment.
pub fn render(endpoint: &str, discovery: &Discovery) -> (r: Result<String, RenderError>)
    ensures
        match r {
            Ok(text) => discovery.oidc is Some && discovery.oidc->0.client_id is Some && text@
                == config_text(
                endpoint@,
                opt_text(discovery.puller_endpoint),
                texts(discovery.public_keys@),
                discovery.oidc->0.issuer@,
                discovery.oidc->0.client_id->0@,
                discovery.oidc->0.audience@,
            ),
            Err(RenderError::NoOidc) => discovery.oidc is None,
            Err(RenderError::NoClientId) => discovery.oidc is Some
                && discovery.oidc->0.client_id is None,
        },
{
    let oidc = match &discovery.oidc {
        None => {
            return Err(RenderError::NoOidc);
        },
        Some(oidc) => oidc,
    };
    let client_id = match &oidc.client_id {
        None => {
            return Err(RenderError::NoClientId);
        },
        Some(id) => id.as_str(),
    };
    let puller = match &discovery.puller_endpoint {
        Some(url) => text_line("puller_endpoint", url.as_str()),
        None => remark_line(
            "puller_endpoint \u{2014} the server advertised none; `use`/`list`/`tree` need it",
        ),
    };
    let keys = if discovery.public_keys.len() == 0 {
        remark_line("public_keys \u{2014} the server advertised none; `garret use` needs them")
    } else {
        texts_line("public_keys", &discovery.public_keys)
    };
    let front = remark_line("Written by `garret login`. Re-run with --force to regenerate.").concat(
        text_line("endpoint", endpoint).as_str(),
    ).concat(puller.as_str()).concat(keys.as_str()).concat("\n");
    let section = text_line("issuer", oidc.issuer.as_str()).concat(
        text_line("client_id", client_id).as_str(),
    ).concat(text_line("audience", oidc.audience.as_str()).as_str()).concat("\n").concat(
        remark_line("Optional: jobs = 8, zstd_level = 3, max_retries = 5").as_str(),
    );
    proof {
        let a = cache_lines(
            endpoint@,
            opt_text(discovery.puller_endpoint),
            texts(discovery.public_keys@),
        );
        let b = oidc_lines(oidc.issuer@, client_id@, oidc.audience@);
        five_lines(a[0], a[1], a[2], a[3], a[4]);
        five_lines(b[0], b[1], b[2], b[3], b[4]);
        assert(a =~= seq![a[0], a[1], a[2], a[3], a[4]]);
        assert(b =~= seq![b[0], b[1], b[2], b[3], b[4]]);
    }
    Ok(front.concat("[").concat("oidc").concat("]\n").concat(section.as_str()))
}

/// Five lines are written one behind the other.
proof fn five_lines(a: Line, b: Line, c: Line, d: Line, e: Line)
    ensures
        lines_text(seq![a, b, c, d, e]) == line_text(a) + line_text(b) + line_text(c) + line_text(d)
            + line_text(e),
{
    let none = Seq::<Line>::empty();
    lines_grow(none, a);
    lines_grow(none.push(a), b);
    lines_grow(none.push(a).push(b), c);
    lines_grow(none.push(a).push(b).push(c), d);
    lines_grow(none.push(a).push(b).push(c).push(d), e);
    assert(lines_text(none) + line_text(a) =~= line_text(a));
    assert(seq![a, b, c, d, e] =~= none.push(a).push(b).push(c).push(d).push(e));
}

/// What can stand under a key of a section.
pub open spec fn kind_of(section: Section, key: Seq<char>) -> Option<Kind> {
    match section {
        Section::Whole => if key == "endpoint"@ || key == "puller_endpoint"@ {
            Some(Kind::Text)
        } else if key == "public_keys"@ || key == "upstream_keys"@ {
            Some(Kind::Texts)
        } else if key == "jobs"@ {
            Some(Kind::Number(0, usize::MAX as int))
        } else if key == "zstd_level"@ {
            Some(Kind::Number(i32::MIN as int, i32::MAX as int))
        } else if key == "max_retries"@ {
            Some(Kind::Number(0, u32::MAX as int))
        } else if key == "oidc"@ || key == "watch"@ {
            Some(Kind::Table)
        } else {
            None
        },
        Section::Oidc => if key == "issuer"@ || key == "client_id"@ || key == "audience"@ || key
            == "resource"@ {
            Some(Kind::Text)
        } else {
            None
        },
        Section::Watch => if key == "credentials_file"@ || key == "nix_db"@ || key
            == "cursor_path"@ || key == "socket_path"@ {
            Some(Kind::Text)
        } else if key == "upstream_keys"@ || key == "exclude_patterns"@ {
            Some(Kind::Texts)
        } else if key == "poll_interval_secs"@ {
            Some(Kind::Number(0, u64::MAX as int))
        } else if key == "max_attempts"@ {
            Some(Kind::Number(0, u32::MAX as int))
        } else {
            None
        },
    }
}

/// A key that has to be there.
pub open spec fn is_needed(section: Section, key: Seq<char>) -> bool {
    match section {
        Section::Whole => key == "endpoint"@ || key == "oidc"@,
        Section::Oidc => key == "issuer"@ || key == "audience"@,
        Section::Watch => false,
    }
}

/// The sections of a configuration.
#[derive(Clone, Copy)]
pub enum Section {
    /// All of it.
    Whole,
    /// How to get a token.
    Oidc,
    /// The store watcher.
    Watch,
}

/// A section is as it has to be: what is needed is there, everything is of its
/// kind, and there is nothing else, so that a misspelt key is no silent default.
pub open spec fn section_fits(section: Section, t: Map<Seq<char>, Toml>) -> bool {
    &&& forall|key: Seq<char>|
        #![trigger t.dom().contains(key)]
        t.dom().contains(key) ==> kind_of(section, key) is Some && is_of_kind(
            kind_of(section, key)->0,
            t[key],
        )
    &&& forall|key: Seq<char>| #[trigger] is_needed(section, key) ==> t.dom().contains(key)
}

/// What is wrong with a section.
pub open spec fn section_problem(
    section: Section,
    t: Map<Seq<char>, Toml>,
    e: SettingError,
) -> bool {
    match e {
        SettingError::Syntax(_) => false,
        SettingError::Unknown(key) => t.dom().contains(key@) && kind_of(section, key@) is None,
        SettingError::Missing(key) => is_needed(section, key@) && !t.dom().contains(key@),
        SettingError::Wrong(key) => t.dom().contains(key@) && kind_of(section, key@) is Some
            && !is_of_kind(kind_of(section, key@)->0, t[key@]),
    }
}

/// The table under a key, empty where there is none.
pub open spec fn table_at(t: Map<Seq<char>, Toml>, key: Seq<char>) -> Map<Seq<char>, Toml> {
    if t.dom().contains(key) && t[key] is Table {
        t[key]->Table_0
    } else {
        Map::empty()
    }
}

/// A configuration is as it has to be.
pub open spec fn config_fits(t: Map<Seq<char>, Toml>) -> bool {
    &&& section_fits(Section::Whole, t)
    &&& section_fits(Section::Oidc, table_at(t, "oidc"@))
    &&& section_fits(Section::Watch, table_at(t, "watch"@))
}

/// What is wrong with a configuration.
pub open spec fn config_problem(t: Map<Seq<char>, Toml>, e: SettingError) -> bool {
    ||| section_problem(Section::Whole, t, e)
    ||| section_problem(Section::Oidc, table_at(t, "oidc"@), e)
    ||| section_problem(Section::Watch, table_at(t, "watch"@), e)
}

/// What the section on tokens says.
pub open spec fn oidc_says(t: Map<Seq<char>, Toml>, oidc: Oidc) -> bool {
    &&& text_at(t, "issuer"@) == Some(oidc.issuer@)
    &&& text_at(t, "client_id"@) == opt_text(oidc.client_id)
    &&& text_at(t, "audience"@) == Some(oidc.audience@)
    &&& text_at(t, "resource"@) == opt_text(oidc.resource)
}

/// What the section on the watcher says, and what holds where it says nothing.
pub open spec fn watch_says(t: Map<Seq<char>, Toml>, watch: Watch) -> bool {
    &&& text_at(t, "credentials_file"@) == opt_text(watch.credentials_file)
    &&& watch.nix_db@ == value_or(text_at(t, "nix_db"@), "/nix/var/nix/db/db.sqlite"@)
    &&& watch.cursor_path@ == value_or(
        text_at(t, "cursor_path"@),
        "/var/lib/garret/watcher-cursor"@,
    )
    &&& watch.poll_interval_secs == value_or(number_at(t, "poll_interval_secs"@), 30)
    &&& texts_at(t, "upstream_keys"@) == opt_texts(watch.upstream_keys)
    &&& texts(watch.exclude_patterns@) == value_or(texts_at(t, "exclude_patterns"@), seq![])
    &&& watch.max_attempts == value_or(number_at(t, "max_attempts"@), 5)
    &&& watch.socket_path@ == value_or(text_at(t, "socket_path"@), "/run/garret/watch.sock"@)
}

/// What a configuration says, and what holds where it says nothing.
pub open spec fn config_says(t: Map<Seq<char>, Toml>, c: Config) -> bool {
    &&& text_at(t, "endpoint"@) == Some(c.endpoint@)
    &&& oidc_says(table_at(t, "oidc"@), c.oidc)
    &&& c.jobs == value_or(number_at(t, "jobs"@), 8)
    &&& c.zstd_level == value_or(number_at(t, "zstd_level"@), 3)
    &&& c.max_retries == value_or(number_at(t, "max_retries"@), 5)
    &&& text_at(t, "puller_endpoint"@) == opt_text(c.puller_endpoint)
    &&& texts(c.public_keys@) == value_or(texts_at(t, "public_keys"@), seq![])
    &&& texts(c.upstream_keys@) == value_or(
        texts_at(t, "upstream_keys"@),
        seq!["cache.nixos.org-1"@],
    )
    &&& watch_says(table_at(t, "watch"@), c.watch)
}

/// What can stand under the keys of the watcher's section: strings, lists of
/// strings, and numbers from nothing up to the largest.
pub proof fn watch_kinds()
    ensures
        kind_of(Section::Watch, "credentials_file"@) == Some(Kind::Text),
        kind_of(Section::Watch, "nix_db"@) == Some(Kind::Text),
        kind_of(Section::Watch, "cursor_path"@) == Some(Kind::Text),
        kind_of(Section::Watch, "socket_path"@) == Some(Kind::Text),
        kind_of(Section::Watch, "upstream_keys"@) == Some(Kind::Texts),
        kind_of(Section::Watch, "exclude_patterns"@) == Some(Kind::Texts),
        kind_of(Section::Watch, "poll_interval_secs"@) == Some(Kind::Number(0, u64::MAX as int)),
        kind_of(Section::Watch, "max_attempts"@) == Some(Kind::Number(0, u32::MAX as int)),
{
    reveal_strlit("credentials_file");
    reveal_strlit("nix_db");
    reveal_strlit("cursor_path");
    reveal_strlit("socket_path");
    reveal_strlit("upstream_keys");
    reveal_strlit("exclude_patterns");
    reveal_strlit("poll_interval_secs");
    reveal_strlit("max_attempts");
    assert("credentials_file"@.len() == 16 && "nix_db"@.len() == 6);
    assert("cursor_path"@.len() == 11 && "socket_path"@.len() == 11);
    assert("upstream_keys"@.len() == 13 && "poll_interval_secs"@.len() == 18);
    assert("max_attempts"@.len() == 12 && "exclude_patterns"@.len() == 16);
    assert("exclude_patterns"@[0] != "credentials_file"@[0]);
}

/// What can stand under the keys that belong to no section: strings, lists of
/// strings, numbers that their settings can hold, and the two sections.
pub proof fn whole_kinds()
    ensures
        kind_of(Section::Whole, "endpoint"@) == Some(Kind::Text),
        kind_of(Section::Whole, "puller_endpoint"@) == Some(Kind::Text),
        kind_of(Section::Whole, "public_keys"@) == Some(Kind::Texts),
        kind_of(Section::Whole, "upstream_keys"@) == Some(Kind::Texts),
        kind_of(Section::Whole, "jobs"@) == Some(Kind::Number(0, usize::MAX as int)),
        kind_of(Section::Whole, "zstd_level"@) == Some(
            Kind::Number(i32::MIN as int, i32::MAX as int),
        ),
        kind_of(Section::Whole, "max_retries"@) == Some(Kind::Number(0, u32::MAX as int)),
        kind_of(Section::Whole, "oidc"@) == Some(Kind::Table),
        kind_of(Section::Whole, "watch"@) == Some(Kind::Table),
{
    reveal_strlit("endpoint");
    reveal_strlit("puller_endpoint");
    reveal_strlit("public_keys");
    reveal_strlit("upstream_keys");
    reveal_strlit("jobs");
    reveal_strlit("zstd_level");
    reveal_strlit("max_retries");
    reveal_strlit("oidc");
    reveal_strlit("watch");
    assert("endpoint"@.len() == 8 && "puller_endpoint"@.len() == 15);
    assert("public_keys"@.len() == 11 && "upstream_keys"@.len() == 13);
    assert("jobs"@.len() == 4 && "zstd_level"@.len() == 10 && "max_retries"@.len() == 11);
    assert("oidc"@.len() == 4 && "watch"@.len() == 5);
    assert("max_retries"@[0] != "public_keys"@[0]);
    assert("oidc"@[0] != "jobs"@[0]);
}

fn is_key(section: Section, key: &str) -> (r: bool)
    ensures
        r == (kind_of(section, key@) is Some),
{
    match section {
        Section::Whole => same(key, "endpoint") || same(key, "oidc") || same(key, "jobs") || same(
            key,
            "zstd_level",
        ) || same(key, "max_retries") || same(key, "puller_endpoint") || same(key, "public_keys")
            || same(key, "upstream_keys") || same(key, "watch"),
        Section::Oidc => same(key, "issuer") || same(key, "client_id") || same(key, "audience")
            || same(key, "resource"),
        Section::Watch => same(key, "credentials_file") || same(key, "nix_db") || same(
            key,
            "cursor_path",
        ) || same(key, "poll_interval_secs") || same(key, "upstream_keys") || same(
            key,
            "exclude_patterns",
        ) || same(key, "max_attempts") || same(key, "socket_path"),
    }
}

/// Refuses a section that holds something unknown.
fn check_keys(section: Section, value: &toml::Value) -> (r: Result<(), SettingError>)
    requires
        held(*value) is Table,
    ensures
        match r {
            Ok(_) => forall|key: Seq<char>| #[trigger]
                held(*value)->Table_0.dom().contains(key) ==> kind_of(section, key) is Some,
            Err(e) => section_problem(section, held(*value)->Table_0, e),
        },
{
    let keys = match keys_of(value) {
        Some(keys) => keys,
        None => Vec::new(),
    };
    let ghost all = texts(keys@);
    let ghost t = held(*value)->Table_0;
    let mut i: usize = 0;
    while i < keys.len()
        invariant
            i <= keys@.len(),
            all == texts(keys@),
            all.to_set() == t.dom(),
            t == held(*value)->Table_0,
            forall|k: int| 0 <= k < i ==> kind_of(section, #[trigger] all[k]) is Some,
        decreases keys@.len() - i,
    {
        assert(all[i as int] == keys@[i as int]@);
        if !is_key(section, keys[i].as_str()) {
            assert(all.contains(all[i as int]));
            assert(t.dom().contains(keys@[i as int]@));
            return Err(SettingError::Unknown(keys[i].clone()));
        }
        i += 1;
    }
    assert forall|key: Seq<char>| #[trigger] t.dom().contains(key) implies kind_of(
        section,
        key,
    ) is Some by {
        assert(all.contains(key));
        let k = choose|k: int| 0 <= k < all.len() && all[k] == key;
        assert(kind_of(section, all[k]) is Some);
    }
    Ok(())
}

fn read_oidc(value: &toml::Value) -> (r: Result<Oidc, SettingError>)
    requires
        held(*value) is Table,
    ensures
        match r {
            Ok(oidc) => section_fits(Section::Oidc, held(*value)->Table_0) && oidc_says(
                held(*value)->Table_0,
                oidc,
            ),
            Err(e) => section_problem(Section::Oidc, held(*value)->Table_0, e),
        },
{
    check_keys(Section::Oidc, value)?;
    Ok(
        Oidc {
            issuer: text_needed(value, "issuer")?,
            client_id: text_field(value, "client_id")?,
            audience: text_needed(value, "audience")?,
            resource: text_field(value, "resource")?,
        },
    )
}

fn read_watch(value: &toml::Value) -> (r: Result<Watch, SettingError>)
    requires
        held(*value) is Table,
    ensures
        match r {
            Ok(watch) => section_fits(Section::Watch, held(*value)->Table_0) && watch_says(
                held(*value)->Table_0,
                watch,
            ),
            Err(e) => section_problem(Section::Watch, held(*value)->Table_0, e),
        },
{
    proof {
        watch_kinds();
    }
    check_keys(Section::Watch, value)?;
    let credentials_file = text_field(value, "credentials_file")?;
    let nix_db = text_or(value, "nix_db", nix_db())?;
    let cursor_path = text_or(value, "cursor_path", cursor_path())?;
    let poll: i64 = number_or(value, "poll_interval_secs", 0, u64::MAX, poll_interval() as i64)?;
    let upstream_keys = texts_field(value, "upstream_keys")?;
    let none: Vec<String> = Vec::new();
    assert(texts(none@) =~= seq![]);
    let exclude_patterns = texts_or(value, "exclude_patterns", none)?;
    let attempts: i64 = number_or(
        value,
        "max_attempts",
        0,
        u32::MAX as u64,
        max_attempts() as i64,
    )?;
    let socket_path = text_or(value, "socket_path", socket_path())?;
    Ok(
        Watch {
            credentials_file,
            nix_db,
            cursor_path,
            poll_interval_secs: poll as u64,
            upstream_keys,
            exclude_patterns,
            max_attempts: attempts as u32,
            socket_path,
        },
    )
}

/// What was read of a configuration that logging in has written.
pub open spec fn read_back(
    c: Config,
    endpoint: Seq<char>,
    puller: Option<Seq<char>>,
    keys: Seq<Seq<char>>,
    issuer: Seq<char>,
    client_id: Seq<char>,
    audience: Seq<char>,
) -> bool {
    &&& c.endpoint@ == endpoint
    &&& opt_text(c.puller_endpoint) == puller
    &&& texts(c.public_keys@) == keys
    &&& c.oidc.issuer@ == issuer
    &&& opt_text(c.oidc.client_id) == Some(client_id)
    &&& c.oidc.audience@ == audience
    &&& c.oidc.resource is None
    &&& c.jobs == 8
    &&& c.zstd_level == 3
    &&& c.max_retries == 5
    &&& texts(c.upstream_keys@) == seq!["cache.nixos.org-1"@]
    &&& watch_says(Map::empty(), c.watch)
}

/// Everything that logging in writes is plain text.
pub open spec fn all_plain(
    endpoint: Seq<char>,
    puller: Option<Seq<char>>,
    keys: Seq<Seq<char>>,
    issuer: Seq<char>,
    client_id: Seq<char>,
    audience: Seq<char>,
) -> bool {
    &&& plain(endpoint)
    &&& puller is Some ==> plain(puller->0)
    &&& forall|i: int| 0 <= i < keys.len() ==> plain(#[trigger] keys[i])
    &&& plain(issuer)
    &&& plain(client_id)
    &&& plain(audience)
}

/// Reads a configuration. Nothing in it may be unknown, so that a misspelt key
/// is refused instead of meaning nothing. What logging in has written is read
/// back as it was told.
pub fn parse(text: &str) -> (r: Result<Config, SettingError>)
    ensures
        match (toml_document(text@), r) {
            (Err(why), Err(SettingError::Syntax(e))) => e@ == why,
            (Err(_), _) => false,
            (Ok(t), Ok(c)) => config_fits(t) && config_says(t, c),
            (Ok(t), Err(e)) => !config_fits(t) && config_problem(t, e),
        },
        forall|
            endpoint: Seq<char>,
            puller: Option<Seq<char>>,
            keys: Seq<Seq<char>>,
            issuer: Seq<char>,
            client_id: Seq<char>,
            audience: Seq<char>,
        |
            all_plain(endpoint, puller, keys, issuer, client_id, audience) && text@
                == #[trigger] config_text(endpoint, puller, keys, issuer, client_id, audience)
                ==> r is Ok && read_back(
                r->Ok_0,
                endpoint,
                puller,
                keys,
                issuer,
                client_id,
                audience,
            ),
{
    let document = read_document(text);
    let r = match &document {
        Ok(value) => read_config(value),
        Err(why) => Err(SettingError::Syntax(why.clone())),
    };
    proof {
        if document is Ok && r is Err {
            problems_show(toml_document(text@)->Ok_0, r->Err_0);
        }
        assert forall|
            endpoint: Seq<char>,
            puller: Option<Seq<char>>,
            keys: Seq<Seq<char>>,
            issuer: Seq<char>,
            client_id: Seq<char>,
            audience: Seq<char>,
        |
            all_plain(endpoint, puller, keys, issuer, client_id, audience) && text@
                == #[trigger] config_text(
                endpoint,
                puller,
                keys,
                issuer,
                client_id,
                audience,
            ) implies r is Ok && read_back(
            r->Ok_0,
            endpoint,
            puller,
            keys,
            issuer,
            client_id,
            audience,
        ) by {
            written_document_fits(endpoint, puller, keys, issuer, client_id, audience);
            written_table(endpoint, puller, keys, issuer, client_id, audience);
        }
    }
    r
}

/// One more line.
proof fn settings_grow(lines: Seq<Line>, line: Line)
    ensures
        settings(lines.push(line)) == match line {
            Line::Text(key, value) => settings(lines).insert(key, Toml::Text(value)),
            Line::Texts(key, values) => settings(lines).insert(
                key,
                Toml::List(values.map_values(|v: Seq<char>| Toml::Text(v))),
            ),
            _ => settings(lines),
        },
        lines_fit(lines.push(line)) == (lines_fit(lines) && line_fits(line) && match line {
            Line::Text(key, _) => !settings(lines).dom().contains(key),
            Line::Texts(key, _) => !settings(lines).dom().contains(key),
            _ => true,
        }),
{
    assert(lines.push(line).drop_last() =~= lines);
}

/// The keys that logging in writes need no quotes, and are different.
proof fn written_keys()
    ensures
        bare("endpoint"@),
        bare("puller_endpoint"@),
        bare("public_keys"@),
        bare("oidc"@),
        bare("issuer"@),
        bare("client_id"@),
        bare("audience"@),
        "endpoint"@.len() == 8,
        "puller_endpoint"@.len() == 15,
        "public_keys"@.len() == 11,
        "oidc"@.len() == 4,
        "issuer"@.len() == 6,
        "client_id"@.len() == 9,
        "audience"@.len() == 8,
        "audience"@ != "resource"@,
        "upstream_keys"@.len() == 13,
        "jobs"@ != "oidc"@,
        "jobs"@.len() == 4,
        "zstd_level"@.len() == 10,
        "max_retries"@ != "public_keys"@,
        "max_retries"@.len() == 11,
        "watch"@.len() == 5,
        "resource"@.len() == 8,
{
    reveal_strlit("endpoint");
    reveal_strlit("puller_endpoint");
    reveal_strlit("public_keys");
    reveal_strlit("oidc");
    reveal_strlit("issuer");
    reveal_strlit("client_id");
    reveal_strlit("audience");
    reveal_strlit("resource");
    reveal_strlit("upstream_keys");
    reveal_strlit("jobs");
    reveal_strlit("zstd_level");
    reveal_strlit("max_retries");
    reveal_strlit("watch");
    assert("audience"@[0] != "resource"@[0]);
    assert("jobs"@[0] != "oidc"@[0]);
    assert("max_retries"@[0] != "public_keys"@[0]);
}

/// The comments that logging in writes can stand in a document.
proof fn written_remarks()
    ensures
        line_fits(
            Line::Remark("Written by `garret login`. Re-run with --force to regenerate."@),
        ),
        line_fits(puller_line(None)),
        line_fits(keys_line(seq![])),
        line_fits(Line::Remark("Optional: jobs = 8, zstd_level = 3, max_retries = 5"@)),
{
    reveal_strlit("Written by `garret login`. Re-run with --force to regenerate.");
    reveal_strlit(
        "puller_endpoint \u{2014} the server advertised none; `use`/`list`/`tree` need it",
    );
    reveal_strlit("public_keys \u{2014} the server advertised none; `garret use` needs them");
    reveal_strlit("Optional: jobs = 8, zstd_level = 3, max_retries = 5");
}

/// The settings that logging in writes of the cache.
spec fn cache_settings(
    endpoint: Seq<char>,
    puller: Option<Seq<char>>,
    keys: Seq<Seq<char>>,
) -> Map<Seq<char>, Toml> {
    let a = Map::<Seq<char>, Toml>::empty().insert("endpoint"@, Toml::Text(endpoint));
    let b = match puller {
        Some(url) => a.insert("puller_endpoint"@, Toml::Text(url)),
        None => a,
    };
    if keys.len() == 0 {
        b
    } else {
        b.insert("public_keys"@, Toml::List(keys.map_values(|v: Seq<char>| Toml::Text(v))))
    }
}

/// The settings that logging in writes of tokens.
spec fn oidc_settings(issuer: Seq<char>, client_id: Seq<char>, audience: Seq<char>) -> Map<
    Seq<char>,
    Toml,
> {
    Map::<Seq<char>, Toml>::empty().insert("issuer"@, Toml::Text(issuer)).insert(
        "client_id"@,
        Toml::Text(client_id),
    ).insert("audience"@, Toml::Text(audience))
}

/// What logging in writes is a plain document.
proof fn written_document_fits(
    endpoint: Seq<char>,
    puller: Option<Seq<char>>,
    keys: Seq<Seq<char>>,
    issuer: Seq<char>,
    client_id: Seq<char>,
    audience: Seq<char>,
)
    requires
        all_plain(endpoint, puller, keys, issuer, client_id, audience),
    ensures
        document_fits(
            cache_lines(endpoint, puller, keys),
            "oidc"@,
            oidc_lines(issuer, client_id, audience),
        ),
        settings(cache_lines(endpoint, puller, keys)) == cache_settings(endpoint, puller, keys),
        settings(oidc_lines(issuer, client_id, audience)) == oidc_settings(
            issuer,
            client_id,
            audience,
        ),
{
    written_keys();
    written_remarks();
    let none = Seq::<Line>::empty();
    let a = cache_lines(endpoint, puller, keys);
    let b = oidc_lines(issuer, client_id, audience);
    settings_grow(none, a[0]);
    settings_grow(none.push(a[0]), a[1]);
    settings_grow(none.push(a[0]).push(a[1]), a[2]);
    settings_grow(none.push(a[0]).push(a[1]).push(a[2]), a[3]);
    settings_grow(none.push(a[0]).push(a[1]).push(a[2]).push(a[3]), a[4]);
    assert(a =~= none.push(a[0]).push(a[1]).push(a[2]).push(a[3]).push(a[4]));
    settings_grow(none, b[0]);
    settings_grow(none.push(b[0]), b[1]);
    settings_grow(none.push(b[0]).push(b[1]), b[2]);
    settings_grow(none.push(b[0]).push(b[1]).push(b[2]), b[3]);
    settings_grow(none.push(b[0]).push(b[1]).push(b[2]).push(b[3]), b[4]);
    assert(b =~= none.push(b[0]).push(b[1]).push(b[2]).push(b[3]).push(b[4]));
}

/// What logging in writes is a configuration, and says what it was told.
proof fn written_table(
    endpoint: Seq<char>,
    puller: Option<Seq<char>>,
    keys: Seq<Seq<char>>,
    issuer: Seq<char>,
    client_id: Seq<char>,
    audience: Seq<char>,
)
    ensures
        ({
            let t = cache_settings(endpoint, puller, keys).insert(
                "oidc"@,
                Toml::Table(oidc_settings(issuer, client_id, audience)),
            );
            &&& config_fits(t)
            &&& forall|c: Config| #[trigger]
                config_says(t, c) ==> read_back(
                    c,
                    endpoint,
                    puller,
                    keys,
                    issuer,
                    client_id,
                    audience,
                )
        }),
{
    written_keys();
    whole_kinds();
    let o = oidc_settings(issuer, client_id, audience);
    let t = cache_settings(endpoint, puller, keys).insert("oidc"@, Toml::Table(o));
    assert(table_at(t, "oidc"@) == o);
    assert(table_at(t, "watch"@) == Map::<Seq<char>, Toml>::empty());
    if keys.len() > 0 {
        let list = t["public_keys"@]->List_0;
        assert(list.map_values(|v: Toml| v->Text_0) =~= keys);
    } else {
        assert(keys =~= seq![]);
    }
    assert(section_fits(Section::Whole, t));
    assert(section_fits(Section::Oidc, o));
    assert(section_fits(Section::Watch, Map::empty()));
}

/// Where something is wrong, the configuration is not as it has to be.
proof fn problems_show(t: Map<Seq<char>, Toml>, e: SettingError)
    requires
        config_problem(t, e),
    ensures
        !config_fits(t),
{
}

/// Reads a configuration off the table of a document.
pub fn read_config(value: &toml::Value) -> (r: Result<Config, SettingError>)
    requires
        held(*value) is Table,
    ensures
        match r {
            Ok(c) => config_fits(held(*value)->Table_0) && config_says(held(*value)->Table_0, c),
            Err(e) => config_problem(held(*value)->Table_0, e),
        },
{
    proof {
        whole_kinds();
    }
    check_keys(Section::Whole, value)?;
    let endpoint = text_needed(value, "endpoint")?;
    let oidc = match member(value, "oidc") {
        None => {
            return Err(SettingError::Missing("oidc".to_owned()));
        },
        Some(v) => if keys_of(&v).is_none() {
            return Err(SettingError::Wrong("oidc".to_owned()));
        } else {
            read_oidc(&v)?
        },
    };
    let jobs: i64 = number_or(value, "jobs", 0, usize::MAX as u64, jobs() as i64)?;
    let level: i64 = number_or(
        value,
        "zstd_level",
        i32::MIN as i64,
        i32::MAX as u64,
        zstd_level() as i64,
    )?;
    let retries: i64 = number_or(
        value,
        "max_retries",
        0,
        u32::MAX as u64,
        max_retries() as i64,
    )?;
    let puller_endpoint = text_field(value, "puller_endpoint")?;
    let none: Vec<String> = Vec::new();
    assert(texts(none@) =~= seq![]);
    let public_keys = texts_or(value, "public_keys", none)?;
    let upstream_keys = texts_or(value, "upstream_keys", upstream_keys())?;
    let watch = match member(value, "watch") {
        None => {
            let watch = Watch::default();
            assert(texts(watch.exclude_patterns@) =~= seq![]);
            watch
        },
        Some(v) => if keys_of(&v).is_none() {
            return Err(SettingError::Wrong("watch".to_owned()));
        } else {
            read_watch(&v)?
        },
    };
    Ok(
        Config {
            endpoint,
            oidc,
            jobs: jobs as usize,
            zstd_level: level as i32,
            max_retries: retries as u32,
            puller_endpoint,
            public_keys,
            upstream_keys,
            watch,
        },
    )
}

/// The keys whose paths the watcher leaves alone: its own list, or else that
/// of the client.
pub fn watch_upstream_keys(config: &Config) -> (r: Vec<String>)
    ensures
        texts(r@) == match config.watch.upstream_keys {
            Some(keys) => texts(keys@),
            None => texts(config.upstream_keys@),
        },
{
    match &config.watch.upstream_keys {
        Some(keys) => crate::db::copy_texts(keys),
        None => crate::db::copy_texts(&config.upstream_keys),
    }
}

/// A setting that is given is the one that is used, under its own name, and what
/// is not given has its default.
pub proof fn settings_mean_what_they_say(t: Map<Seq<char>, Toml>, c: Config)
    requires
        config_says(t, c),
    ensures
        t.dom().contains("endpoint"@) && t["endpoint"@] == Toml::Text(c.endpoint@),
        t.dom().contains("jobs"@) && t["jobs"@] is Number ==> c.jobs == t["jobs"@]->Number_0,
        !t.dom().contains("jobs"@) ==> c.jobs == 8,
        t.dom().contains("zstd_level"@) && t["zstd_level"@] is Number ==> c.zstd_level
            == t["zstd_level"@]->Number_0,
        !t.dom().contains("zstd_level"@) ==> c.zstd_level == 3,
        t.dom().contains("max_retries"@) && t["max_retries"@] is Number ==> c.max_retries
            == t["max_retries"@]->Number_0,
        !t.dom().contains("max_retries"@) ==> c.max_retries == 5,
        t.dom().contains("puller_endpoint"@) && t["puller_endpoint"@] is Text
            ==> c.puller_endpoint is Some && c.puller_endpoint->0@ == t["puller_endpoint"@]->Text_0,
        !t.dom().contains("puller_endpoint"@) ==> c.puller_endpoint is None,
        t.dom().contains("public_keys"@) && t["public_keys"@] is List ==> are_texts(
            t["public_keys"@]->List_0,
            c.public_keys@,
        ),
        !t.dom().contains("public_keys"@) ==> c.public_keys@.len() == 0,
        t.dom().contains("upstream_keys"@) && t["upstream_keys"@] is List ==> are_texts(
            t["upstream_keys"@]->List_0,
            c.upstream_keys@,
        ),
        !t.dom().contains("upstream_keys"@) ==> c.upstream_keys@.len() == 1 && c.upstream_keys@[0]@
            == "cache.nixos.org-1"@,
{
    if t.dom().contains("public_keys"@) && t["public_keys"@] is List {
        same_texts(t["public_keys"@]->List_0, c.public_keys@);
    }
    if t.dom().contains("upstream_keys"@) && t["upstream_keys"@] is List {
        same_texts(t["upstream_keys"@]->List_0, c.upstream_keys@);
    }
    if !t.dom().contains("public_keys"@) {
        assert(texts(c.public_keys@).len() == 0);
    }
    if !t.dom().contains("upstream_keys"@) {
        assert(texts(c.upstream_keys@).len() == 1);
        assert(texts(c.upstream_keys@)[0] == "cache.nixos.org-1"@);
    }
}

/// The list holds these texts, in their order.
pub open spec fn are_texts(list: Seq<Toml>, values: Seq<String>) -> bool {
    &&& values.len() == list.len()
    &&& forall|i: int|
        0 <= i < list.len() && list[i] is Text ==> (#[trigger] values[i])@ == list[i]->Text_0
}

proof fn same_texts(list: Seq<Toml>, values: Seq<String>)
    requires
        texts(values) == list.map_values(|v: Toml| v->Text_0),
    ensures
        are_texts(list, values),
{
    assert(texts(values).len() == values.len());
    assert forall|i: int| 0 <= i < list.len() && list[i] is Text implies (#[trigger] values[i])@
        == list[i]->Text_0 by {
        assert(texts(values)[i] == values[i]@);
    }
}

/// The same of the section on tokens: it says all that it has to say, and what it
/// does not say is not there.
pub proof fn token_settings_mean_what_they_say(t: Map<Seq<char>, Toml>, oidc: Oidc)
    requires
        oidc_says(t, oidc),
    ensures
        t.dom().contains("issuer"@) && t["issuer"@] == Toml::Text(oidc.issuer@),
        t.dom().contains("audience"@) && t["audience"@] == Toml::Text(oidc.audience@),
        t.dom().contains("client_id"@) && t["client_id"@] is Text ==> oidc.client_id is Some
            && oidc.client_id->0@ == t["client_id"@]->Text_0,
        !t.dom().contains("client_id"@) ==> oidc.client_id is None,
        t.dom().contains("resource"@) && t["resource"@] is Text ==> oidc.resource is Some
            && oidc.resource->0@ == t["resource"@]->Text_0,
        !t.dom().contains("resource"@) ==> oidc.resource is None,
{
}

/// The same of the section on the watcher.
pub proof fn watcher_settings_mean_what_they_say(t: Map<Seq<char>, Toml>, watch: Watch)
    requires
        watch_says(t, watch),
    ensures
        t.dom().contains("credentials_file"@) && t["credentials_file"@] is Text
            ==> watch.credentials_file is Some && watch.credentials_file->0@
            == t["credentials_file"@]->Text_0,
        !t.dom().contains("credentials_file"@) ==> watch.credentials_file is None,
        t.dom().contains("nix_db"@) && t["nix_db"@] is Text ==> watch.nix_db@
            == t["nix_db"@]->Text_0,
        !t.dom().contains("nix_db"@) ==> watch.nix_db@ == "/nix/var/nix/db/db.sqlite"@,
        t.dom().contains("cursor_path"@) && t["cursor_path"@] is Text ==> watch.cursor_path@
            == t["cursor_path"@]->Text_0,
        !t.dom().contains("cursor_path"@) ==> watch.cursor_path@
            == "/var/lib/garret/watcher-cursor"@,
        t.dom().contains("socket_path"@) && t["socket_path"@] is Text ==> watch.socket_path@
            == t["socket_path"@]->Text_0,
        !t.dom().contains("socket_path"@) ==> watch.socket_path@ == "/run/garret/watch.sock"@,
        t.dom().contains("poll_interval_secs"@) && t["poll_interval_secs"@] is Number
            ==> watch.poll_interval_secs == t["poll_interval_secs"@]->Number_0,
        !t.dom().contains("poll_interval_secs"@) ==> watch.poll_interval_secs == 30,
        t.dom().contains("max_attempts"@) && t["max_attempts"@] is Number ==> watch.max_attempts
            == t["max_attempts"@]->Number_0,
        !t.dom().contains("max_attempts"@) ==> watch.max_attempts == 5,
        t.dom().contains("upstream_keys"@) && t["upstream_keys"@] is List
            ==> watch.upstream_keys is Some && are_texts(
            t["upstream_keys"@]->List_0,
            watch.upstream_keys->0@,
        ),
        !t.dom().contains("upstream_keys"@) ==> watch.upstream_keys is None,
        t.dom().contains("exclude_patterns"@) && t["exclude_patterns"@] is List ==> are_texts(
            t["exclude_patterns"@]->List_0,
            watch.exclude_patterns@,
        ),
        !t.dom().contains("exclude_patterns"@) ==> watch.exclude_patterns@.len() == 0,
{
    if t.dom().contains("upstream_keys"@) && t["upstream_keys"@] is List {
        same_texts(t["upstream_keys"@]->List_0, watch.upstream_keys->0@);
    }
    if t.dom().contains("exclude_patterns"@) && t["exclude_patterns"@] is List {
        same_texts(t["exclude_patterns"@]->List_0, watch.exclude_patterns@);
    } else if !t.dom().contains("exclude_patterns"@) {
        assert(texts(watch.exclude_patterns@).len() == 0);
    }
}

/// `key` is one of `keys`.
pub open spec fn is_one_of(keys: Seq<Seq<char>>, key: Seq<char>) -> bool {
    exists|i: int| 0 <= i < keys.len() && #[trigger] keys[i] == key
}

/// A configuration that is as it has to be knows each of its keys and has the
/// four settings without which nothing can be pushed.
pub proof fn misspelt_keys_are_refused(t: Map<Seq<char>, Toml>, key: Seq<char>)
    requires
        config_fits(t),
    ensures
        t.dom().contains(key) ==> is_one_of(
            seq![
                "endpoint"@,
                "puller_endpoint"@,
                "public_keys"@,
                "upstream_keys"@,
                "jobs"@,
                "zstd_level"@,
                "max_retries"@,
                "oidc"@,
                "watch"@,
            ],
            key,
        ),
        t.dom().contains("endpoint"@),
        t.dom().contains("oidc"@) && t["oidc"@] is Table,
        ({
            let oidc = t["oidc"@]->Table_0;
            &&& oidc.dom().contains("issuer"@)
            &&& oidc.dom().contains("audience"@)
            &&& oidc.dom().contains(key) ==> is_one_of(
                seq!["issuer"@, "client_id"@, "audience"@, "resource"@],
                key,
            )
        }),
        t.dom().contains("watch"@) ==> t["watch"@] is Table && (t["watch"@]->Table_0.dom().contains(
            key,
        ) ==> is_one_of(
            seq![
                "credentials_file"@,
                "nix_db"@,
                "cursor_path"@,
                "socket_path"@,
                "upstream_keys"@,
                "exclude_patterns"@,
                "poll_interval_secs"@,
                "max_attempts"@,
            ],
            key,
        )),
{
    whole_kinds();
    let whole = seq![
        "endpoint"@,
        "puller_endpoint"@,
        "public_keys"@,
        "upstream_keys"@,
        "jobs"@,
        "zstd_level"@,
        "max_retries"@,
        "oidc"@,
        "watch"@,
    ];
    let tokens = seq!["issuer"@, "client_id"@, "audience"@, "resource"@];
    let watcher = seq![
        "credentials_file"@,
        "nix_db"@,
        "cursor_path"@,
        "socket_path"@,
        "upstream_keys"@,
        "exclude_patterns"@,
        "poll_interval_secs"@,
        "max_attempts"@,
    ];
    assert(is_needed(Section::Whole, "endpoint"@));
    assert(is_needed(Section::Whole, "oidc"@));
    assert(is_needed(Section::Oidc, "issuer"@));
    assert(is_needed(Section::Oidc, "audience"@));
    assert(table_at(t, "oidc"@) == t["oidc"@]->Table_0);
    if t.dom().contains(key) {
        assert(kind_of(Section::Whole, key) is Some);
        assert(whole[0] == key || whole[1] == key || whole[2] == key || whole[3] == key || whole[4]
            == key || whole[5] == key || whole[6] == key || whole[7] == key || whole[8] == key);
    }
    if t["oidc"@]->Table_0.dom().contains(key) {
        assert(kind_of(Section::Oidc, key) is Some);
        assert(tokens[0] == key || tokens[1] == key || tokens[2] == key || tokens[3] == key);
    }
    if t.dom().contains("watch"@) {
        assert(kind_of(Section::Whole, "watch"@) == Some(Kind::Table));
        assert(table_at(t, "watch"@) == t["watch"@]->Table_0);
        if t["watch"@]->Table_0.dom().contains(key) {
            assert(kind_of(Section::Watch, key) is Some);
            assert(watcher[0] == key || watcher[1] == key || watcher[2] == key || watcher[3] == key
                || watcher[4] == key || watcher[5] == key || watcher[6] == key || watcher[7] == key);
        }
    }
}

/// A configuration with the settings that it needs, each a string, and nothing
/// else is as it has to be.
pub proof fn the_least_configuration_is_accepted(
    endpoint: Seq<char>,
    issuer: Seq<char>,
    audience: Seq<char>,
)
    ensures
        config_fits(
            map![
                "endpoint"@ => Toml::Text(endpoint),
                "oidc"@ => Toml::Table(
                    map!["issuer"@ => Toml::Text(issuer), "audience"@ => Toml::Text(audience)],
                ),
            ],
        ),
{
    reveal_strlit("endpoint");
    reveal_strlit("oidc");
    reveal_strlit("watch");
    reveal_strlit("issuer");
    reveal_strlit("audience");
    whole_kinds();
    assert("endpoint"@.len() == 8 && "oidc"@.len() == 4 && "watch"@.len() == 5);
    assert("issuer"@.len() == 6 && "audience"@.len() == 8);
    let oidc = map!["issuer"@ => Toml::Text(issuer), "audience"@ => Toml::Text(audience)];
    let t = map!["endpoint"@ => Toml::Text(endpoint), "oidc"@ => Toml::Table(oidc)];
    assert(t.dom().contains("oidc"@) && t["oidc"@] == Toml::Table(oidc));
    assert(!t.dom().contains("watch"@));
    assert(table_at(t, "oidc"@) == oidc);
    assert(oidc.dom().contains("issuer"@) && oidc.dom().contains("audience"@));
}

/// A name in a directory is the directory, one slash, and the name.
pub proof fn names_stand_behind_one_slash(dir: Seq<char>, name: Seq<char>)
    ensures
        dir.len() == 0 ==> in_dir(dir, name) == name,
        in_dir(dir.push('/'), name) == dir + seq!['/'] + name,
        dir.len() > 0 && dir.last() != '/' ==> in_dir(dir, name) == dir + seq!['/'] + name,
{
    reveal_strlit("/");
    assert("/"@ =~= seq!['/']);
    assert(dir.push('/') + name =~= dir + seq!['/'] + name);
    if dir.len() == 0 {
        assert(dir + name =~= name);
    }
}

/// What the server told stands in the configuration that is written, each under
/// its own key and on a line of its own.
pub proof fn what_was_told_is_written(
    endpoint: Seq<char>,
    puller: Seq<char>,
    keys: Seq<Seq<char>>,
    issuer: Seq<char>,
    client_id: Seq<char>,
    audience: Seq<char>,
)
    requires
        keys.len() > 0,
    ensures
        ({
            let text = config_text(endpoint, Some(puller), keys, issuer, client_id, audience);
            &&& occurs(text, "endpoint"@ + " = "@ + toml_string(endpoint) + "\n"@)
            &&& occurs(text, "puller_endpoint"@ + " = "@ + toml_string(puller) + "\n"@)
            &&& occurs(text, "public_keys"@ + " = ["@ + toml_strings(keys) + "]\n"@)
            &&& occurs(text, "issuer"@ + " = "@ + toml_string(issuer) + "\n"@)
            &&& occurs(text, "client_id"@ + " = "@ + toml_string(client_id) + "\n"@)
            &&& occurs(text, "audience"@ + " = "@ + toml_string(audience) + "\n"@)
        }),
{
    let front = cache_lines(endpoint, Some(puller), keys);
    let back = oidc_lines(issuer, client_id, audience);
    lines_hold_each(front, 1);
    lines_hold_each(front, 2);
    lines_hold_each(front, 3);
    lines_hold_each(back, 0);
    lines_hold_each(back, 1);
    lines_hold_each(back, 2);
    let text = config_text(endpoint, Some(puller), keys, issuer, client_id, audience);
    let head = lines_text(front) + "["@ + "oidc"@ + "]\n"@;
    let tail = "["@ + "oidc"@ + "]\n"@ + lines_text(back);
    assert(Seq::<char>::empty() + lines_text(front) + tail =~= text);
    assert(head + lines_text(back) + Seq::<char>::empty() =~= text);
    occurs_in_more(Seq::empty(), lines_text(front), tail, line_text(front[1]));
    occurs_in_more(Seq::empty(), lines_text(front), tail, line_text(front[2]));
    occurs_in_more(Seq::empty(), lines_text(front), tail, line_text(front[3]));
    occurs_in_more(head, lines_text(back), Seq::empty(), line_text(back[0]));
    occurs_in_more(head, lines_text(back), Seq::empty(), line_text(back[1]));
    occurs_in_more(head, lines_text(back), Seq::empty(), line_text(back[2]));
}

proof fn lines_hold_each(lines: Seq<Line>, i: int)
    requires
        0 <= i < lines.len(),
    ensures
        occurs(lines_text(lines), line_text(lines[i])),
    decreases lines.len(),
{
    let all = lines_text(lines);
    let front = lines_text(lines.drop_last());
    let last = line_text(lines.last());
    if i == lines.len() - 1 {
        let at = front.len() as int;
        assert(all.subrange(at, at + last.len()) =~= last);
    } else {
        lines_hold_each(lines.drop_last(), i);
        occurs_in_more(Seq::empty(), front, last, line_text(lines[i]));
        assert(Seq::<char>::empty() + front + last =~= all);
    }
}

/// A complaint about a configuration is a true one: a key that is said to be
/// missing is needed and is not there, and one that is said to be wrong or unknown
/// is there.
pub proof fn complaints_are_true(t: Map<Seq<char>, Toml>, e: SettingError)
    requires
        config_problem(t, e),
    ensures
        !config_fits(t),
        !(e is Syntax),
        e matches SettingError::Missing(key) ==> is_one_of(
            seq!["endpoint"@, "oidc"@, "issuer"@, "audience"@],
            key@,
        ),
        e matches SettingError::Unknown(key) ==> t.dom().contains(key@) || table_at(
            t,
            "oidc"@,
        ).dom().contains(key@) || table_at(t, "watch"@).dom().contains(key@),
        e matches SettingError::Wrong(key) ==> t.dom().contains(key@) || table_at(
            t,
            "oidc"@,
        ).dom().contains(key@) || table_at(t, "watch"@).dom().contains(key@),
{
    problems_show(t, e);
    if e is Missing {
        let key = e->Missing_0@;
        let all = seq!["endpoint"@, "oidc"@, "issuer"@, "audience"@];
        assert(all[0] == key || all[1] == key || all[2] == key || all[3] == key);
    }
}

/// What can stand under the keys of the section on tokens: strings.
pub proof fn token_kinds()
    ensures
        kind_of(Section::Oidc, "issuer"@) == Some(Kind::Text),
        kind_of(Section::Oidc, "client_id"@) == Some(Kind::Text),
        kind_of(Section::Oidc, "audience"@) == Some(Kind::Text),
        kind_of(Section::Oidc, "resource"@) == Some(Kind::Text),
{
}

/// A value is of its kind if it is a string, a list of nothing but strings, a
/// number between its bounds, or a table.
pub proof fn kinds_are_told_by_the_value(value: Toml, low: int, high: int)
    ensures
        is_of_kind(Kind::Text, value) <==> value is Text,
        is_of_kind(Kind::Table, value) <==> value is Table,
        is_of_kind(Kind::Number(low, high), value) <==> value is Number && low <= value->Number_0
            && value->Number_0 <= high,
        is_of_kind(Kind::Texts, value) <==> value is List && forall|i: int|
            0 <= i < value->List_0.len() ==> #[trigger] value->List_0[i] is Text,
{
}

} // verus!
