//! What the commands of the client decide and say.

use vstd::prelude::*;
use vstd::string::*;

use crate::auth::{trim_slashes, without_slashes};
use crate::client::auth::Claims;
use crate::client::config::{config_text, missing_text, render, Config};
use crate::client::discovery::Discovery;
use crate::client::nixconf::{conf_text, lines, nixos_snippet, snippet_text};
use crate::client::push::{show_status, status_text};
use crate::number::{decimal_int, show_signed};
use crate::text::{
    join, joined, opt_str, opt_text, texts, trim, trim_back, trim_end, trimmed, words, words_of,
};

verus! {

/// The paths that a build hook reports: those given, or else those in
/// `$OUT_PATHS`, where Nix puts them for a program that it runs without
/// arguments.
pub fn enqueue_paths(args: Vec<String>, out_paths: Option<&str>) -> (r: Vec<String>)
    ensures
        texts(r@) == if args@.len() > 0 {
            texts(args@)
        } else {
            match opt_str(out_paths) {
                Some(text) => words_of(text),
                None => Seq::empty(),
            }
        },
{
    if args.len() > 0 {
        return args;
    }
    match out_paths {
        Some(text) => words(text),
        None => {
            let r: Vec<String> = Vec::new();
            assert(texts(r@) =~= Seq::<Seq<char>>::empty());
            r
        },
    }
}

/// The message that wakes the watcher, or `None` where there are no paths.
pub fn wake_message(paths: &Vec<String>) -> (r: Option<String>)
    ensures
        opt_text(r) == if paths@.len() == 0 {
            None
        } else {
            Some(joined(texts(paths@), " "@))
        },
{
    if paths.len() == 0 {
        None
    } else {
        Some(join(paths, " "))
    }
}

/// How long it is until something that lies `seconds` ahead.
pub open spec fn duration_text(seconds: int) -> Seq<char> {
    if seconds <= 0 {
        "expired"@
    } else if seconds < 90 {
        "in "@ + decimal_int(seconds) + "s"@
    } else if seconds < 5400 {
        "in "@ + decimal_int(seconds / 60) + "m"@
    } else if seconds < 172800 {
        "in "@ + decimal_int(seconds / 3600) + "h"@
    } else {
        "in "@ + decimal_int(seconds / 86400) + "d"@
    }
}

/// How long it is until something that lies `seconds` ahead.
pub fn human_duration(seconds: i64) -> (r: String)
    ensures
        r@ == duration_text(seconds as int),
{
    if seconds <= 0 {
        return "expired".to_owned();
    }
    let head = "in ".to_owned();
    if seconds < 90 {
        head.concat(show_signed(seconds).as_str()).concat("s")
    } else if seconds < 5400 {
        head.concat(show_signed(seconds / 60).as_str()).concat("m")
    } else if seconds < 172800 {
        head.concat(show_signed(seconds / 3600).as_str()).concat("h")
    } else {
        head.concat(show_signed(seconds / 86400).as_str()).concat("d")
    }
}

/// What logging in begins with.
#[derive(Debug)]
pub enum Login {
    /// There is neither a configuration nor a URL to make one from.
    Refuse {
        /// What the user is told.
        text: String,
    },
    /// Log in again as configured, and leave the configuration alone.
    Again,
    /// Ask the server at this URL for its configuration.
    Discover {
        /// The URL.
        url: String,
    },
}

/// What logging in begins with; `exists` is whether there is a configuration
/// at `path`.
pub fn login(url: Option<&str>, exists: bool, path: &str) -> (r: Login)
    ensures
        match opt_str(url) {
            Some(given) => r matches Login::Discover { url } && url@ == given,
            None => if exists {
                r is Again
            } else {
                r matches Login::Refuse { text } && text@ == "no config at "@ + path@
                    + " \u{2014} run `garret login <pusher-url>` to create one"@
            },
        },
{
    match url {
        Some(url) => Login::Discover { url: url.to_owned() },
        None => if exists {
            Login::Again
        } else {
            Login::Refuse { text: missing_text(path) }
        },
    }
}

/// What the user is told where a configuration stands in the way.
pub open spec fn overwrite_text(path: Seq<char>, made: Seq<char>, current: Seq<char>) -> Seq<char> {
    path + " already exists. Re-run with --force to replace it with:\n\n"@ + trim_back(made)
        + "\n(hand-edited `jobs`/`zstd_level` would be lost; current contents:\n\n"@ + trim_back(
        current,
    ) + ")"@
}

/// The configuration to write at `path` for the server at `url`. One that is
/// there, `current`, is replaced only if the user insists.
pub fn login_config(
    url: &str,
    discovered: &Discovery,
    path: &str,
    current: Option<&str>,
    force: bool,
) -> (r: Result<String, String>)
    ensures
        match discovered.oidc {
            None => r matches Err(e) && e@
                == "the server's discovery document has no oidc section: no issuer sets a `client_id`, so the device flow has nothing to identify itself as"@,
            Some(oidc) => match oidc.client_id {
                None => r matches Err(e) && e@
                    == "the server advertised an issuer with no `client_id`, which `garret login` requires"@,
                Some(client_id) => {
                    let made = config_text(
                        without_slashes(url@),
                        opt_text(discovered.puller_endpoint),
                        texts(discovered.public_keys@),
                        oidc.issuer@,
                        client_id@,
                        oidc.audience@,
                    );
                    match opt_str(current) {
                        Some(current) if !force => r matches Err(e) && e@ == overwrite_text(
                            path@,
                            made,
                            current,
                        ),
                        _ => r matches Ok(text) && text@ == made,
                    }
                },
            },
        },
{
    match render(trim_slashes(url), discovered) {
        Err(e) => Err(e.message()),
        Ok(made) => {
            if let Some(current) = current {
                if !force {
                    return Err(
                        path.to_owned().concat(
                            " already exists. Re-run with --force to replace it with:\n\n",
                        ).concat(trim_end(made.as_str())).concat(
                            "\n(hand-edited `jobs`/`zstd_level` would be lost; current contents:\n\n",
                        ).concat(trim_end(current)).concat(")"),
                    );
                }
            }
            Ok(made)
        },
    }
}

/// The public client to log in as.
pub fn login_client(cfg: &Config) -> (r: Result<String, String>)
    ensures
        match opt_text(cfg.oidc.client_id) {
            Some(id) => r matches Ok(text) && text@ == id,
            None => r matches Err(e) && e@ == "`oidc.client_id` is required for `garret login`"@,
        },
{
    match &cfg.oidc.client_id {
        Some(id) => Ok(id.clone()),
        None => Err("`oidc.client_id` is required for `garret login`".to_owned()),
    }
}

/// What is said of a token that the server does not take.
pub fn token_rejected(status: u16, body: &str) -> (r: String)
    requires
        100 <= status <= 999,
    ensures
        r@ == "the Pusher rejected this token with "@ + status_text(status) + ": "@ + trimmed(body@),
{
    "the Pusher rejected this token with ".to_owned().concat(show_status(status).as_str()).concat(
        ": ",
    ).concat(trim(body))
}

/// `v`, or `other` where there is none.
pub open spec fn text_or(v: Option<Seq<char>>, other: Seq<char>) -> Seq<char> {
    match v {
        Some(text) => text,
        None => other,
    }
}

fn or_else(v: &Option<String>, other: &str) -> (r: String)
    ensures
        r@ == text_or(opt_text(*v), other@),
{
    match v {
        Some(text) => text.clone(),
        None => other.to_owned(),
    }
}

/// Who this machine is logged in as, once the server has taken the token.
pub open spec fn whoami_text(cfg: Config, claims: Claims, now: int) -> Seq<Seq<char>> {
    seq![
        "endpoint   "@ + cfg.endpoint@,
        "puller     "@ + text_or(opt_text(cfg.puller_endpoint), "(unset)"@),
        "issuer     "@ + cfg.oidc.issuer@,
        "audience   "@ + cfg.oidc.audience@,
        "subject    "@ + text_or(opt_text(claims.sub), "(unknown)"@),
        "expires    "@ + match claims.exp {
            Some(exp) => decimal_int(exp as int) + " ("@ + duration_text(exp - now) + ")"@,
            None => "(unknown)"@,
        },
        "authenticated: the Pusher accepted this token"@,
    ]
}

/// Who this machine is logged in as, once the server has taken the token.
pub fn whoami(cfg: &Config, claims: &Claims, now: i64) -> (r: Vec<String>)
    requires
        claims.exp matches Some(exp) ==> i64::MIN <= exp - now <= i64::MAX,
    ensures
        texts(r@) == whoami_text(*cfg, *claims, now as int),
{
    let expires = match claims.exp {
        Some(exp) => show_signed(exp).concat(" (").concat(human_duration(exp - now).as_str()).concat(
            ")",
        ),
        None => "(unknown)".to_owned(),
    };
    let mut out: Vec<String> = Vec::new();
    out.push("endpoint   ".to_owned().concat(cfg.endpoint.as_str()));
    out.push(
        "puller     ".to_owned().concat(or_else(&cfg.puller_endpoint, "(unset)").as_str()),
    );
    out.push("issuer     ".to_owned().concat(cfg.oidc.issuer.as_str()));
    out.push("audience   ".to_owned().concat(cfg.oidc.audience.as_str()));
    out.push("subject    ".to_owned().concat(or_else(&claims.sub, "(unknown)").as_str()));
    out.push("expires    ".to_owned().concat(expires.as_str()));
    out.push("authenticated: the Pusher accepted this token".to_owned());
    assert(texts(out@) =~= whoami_text(*cfg, *claims, now as int));
    out
}

/// Where Nix is to be pointed at. Without keys Nix would fetch and then refuse
/// everything.
pub fn use_target(cfg: &Config) -> (r: Result<String, String>)
    ensures
        match opt_text(cfg.puller_endpoint) {
            None => r matches Err(e) && e@
                == "set `puller_endpoint` in the config: `use` points nix at the Puller, not the Pusher"@,
            Some(puller) => if cfg.public_keys@.len() == 0 {
                r matches Err(e) && e@
                    == "no `public_keys` in the config \u{2014} nix would fetch from the cache and then refuse every path as unsigned.\nRe-run `garret login --force "@
                    + cfg.endpoint@ + "` to pick them up from the server."@
            } else {
                r matches Ok(url) && url@ == puller
            },
        },
{
    match &cfg.puller_endpoint {
        None => Err(
            "set `puller_endpoint` in the config: `use` points nix at the Puller, not the Pusher".to_owned(),
        ),
        Some(puller) => {
            if cfg.public_keys.len() == 0 {
                return Err(
                    "no `public_keys` in the config \u{2014} nix would fetch from the cache and then refuse every path as unsigned.\nRe-run `garret login --force ".to_owned().concat(
                        cfg.endpoint.as_str(),
                    ).concat("` to pick them up from the server."),
                );
            }
            Ok(puller.clone())
        },
    }
}

/// The configuration in both forms, for the user to copy.
pub fn use_printed(puller: &str, public_keys: &Vec<String>) -> (r: String)
    ensures
        r@ == conf_text(puller@, texts(public_keys@)) + "\n# Or, on NixOS:\n\n"@ + snippet_text(
            puller@,
            texts(public_keys@),
        ),
{
    lines(puller, public_keys).concat("\n# Or, on NixOS:\n\n").concat(
        nixos_snippet(puller, public_keys).as_str(),
    )
}

/// What is said where Nix does not go by the user's file: it would ignore it
/// without a word.
pub fn ignored_warning(puller: &str, public_keys: &Vec<String>) -> (r: String)
    ensures
        r@ == "\nwarning: nix does not list "@ + puller@
            + " as a substituter, so it is ignoring your user nix.conf.\nThat happens when your user is not in `trusted-users`. On NixOS, add instead:\n\n"@
            + snippet_text(puller@, texts(public_keys@)),
{
    "\nwarning: nix does not list ".to_owned().concat(puller).concat(
        " as a substituter, so it is ignoring your user nix.conf.\nThat happens when your user is not in `trusted-users`. On NixOS, add instead:\n\n",
    ).concat(nixos_snippet(puller, public_keys).as_str())
}

/// Where to ask what the cache holds.
pub fn browse_target(cfg: &Config) -> (r: Result<String, String>)
    ensures
        match opt_text(cfg.puller_endpoint) {
            Some(puller) => r matches Ok(url) && url@ == puller,
            None => r matches Err(e) && e@
                == "set `puller_endpoint` in the config: list/tree query the Puller"@,
        },
{
    match &cfg.puller_endpoint {
        Some(puller) => Ok(puller.clone()),
        None => Err(
            "set `puller_endpoint` in the config: list/tree query the Puller".to_owned(),
        ),
    }
}

/// A time ahead is told in whole units, rounded down, of which there are two at
/// least, but for the seconds: seconds up to a minute and a half, minutes up to an
/// hour and a half, hours up to two days, and days.
pub proof fn times_ahead_are_told_in_whole_units(n: int, r: int)
    requires
        n >= 0,
    ensures
        n > 0 && n < 90 ==> duration_text(n) == "in "@ + decimal_int(n) + "s"@,
        0 <= r < 60 && 90 <= n * 60 + r < 90 * 60 ==> duration_text(n * 60 + r) == "in "@
            + decimal_int(n) + "m"@,
        0 <= r < 3600 && 90 * 60 <= n * 3600 + r < 2 * 86400 ==> duration_text(n * 3600 + r) == "in "@
            + decimal_int(n) + "h"@,
        0 <= r < 86400 && 2 * 86400 <= n * 86400 + r ==> duration_text(n * 86400 + r) == "in "@
            + decimal_int(n) + "d"@,
        duration_text(-n) == "expired"@,
{
    if 0 <= r < 60 {
        assert((n * 60 + r) / 60 == n);
    }
    if 0 <= r < 3600 {
        assert((n * 3600 + r) / 3600 == n);
    }
    if 0 <= r < 86400 {
        assert((n * 86400 + r) / 86400 == n);
    }
}

/// Who is logged in is told with all that decides it, under its own name.
pub proof fn whoami_tells_all(cfg: Config, claims: Claims, now: int)
    ensures
        whoami_text(cfg, claims, now).contains("endpoint   "@ + cfg.endpoint@),
        whoami_text(cfg, claims, now).contains("issuer     "@ + cfg.oidc.issuer@),
        whoami_text(cfg, claims, now).contains("audience   "@ + cfg.oidc.audience@),
        cfg.puller_endpoint is Some ==> whoami_text(cfg, claims, now).contains(
            "puller     "@ + cfg.puller_endpoint->0@,
        ),
        claims.sub is Some ==> whoami_text(cfg, claims, now).contains("subject    "@ + claims.sub->0@),
        claims.exp is Some ==> whoami_text(cfg, claims, now).contains(
            "expires    "@ + (decimal_int(claims.exp->0 as int) + " ("@ + duration_text(
                claims.exp->0 - now,
            ) + ")"@),
        ),
{
    let all = whoami_text(cfg, claims, now);
    assert(all[0] == "endpoint   "@ + cfg.endpoint@);
    assert(all[1] == "puller     "@ + text_or(opt_text(cfg.puller_endpoint), "(unset)"@));
    assert(all[2] == "issuer     "@ + cfg.oidc.issuer@);
    assert(all[3] == "audience   "@ + cfg.oidc.audience@);
    assert(all[4] == "subject    "@ + text_or(opt_text(claims.sub), "(unknown)"@));
    if claims.exp is Some {
        assert(all[5] == "expires    "@ + (decimal_int(claims.exp->0 as int) + " ("@ + duration_text(
            claims.exp->0 - now,
        ) + ")"@));
    }
}

} // verus!
