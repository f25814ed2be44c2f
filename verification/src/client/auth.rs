//! Getting a bearer token, in whichever way the surroundings offer. No tokens
//! are issued here; all come from an issuer.

use vstd::prelude::*;
use vstd::string::*;

use crate::auth::TokenError;
use crate::text::{cut_at, opt_str, opt_text, same, split_once, trim, trimmed};

verus! {

/// What logging in keeps: enough to get new access tokens, and never one of
/// those.
#[derive(Debug)]
pub struct StoredToken {
    /// The refresh token. Each use may replace it, and the replacement must be
    /// kept.
    pub refresh_token: String,
    /// The issuer that it is from.
    pub issuer: String,
    /// The public client that logged in.
    pub client_id: String,
}

/// What the client reads of a token that it holds. Nothing of it is verified.
#[derive(Debug)]
pub struct Claims {
    /// Whom the token belongs to.
    pub sub: Option<String>,
    /// Unix time at which it expires.
    pub exp: Option<i64>,
    /// Unix time at which it was issued.
    pub iat: Option<i64>,
    /// Whom it is for.
    pub aud: Vec<String>,
}

/// The two endpoints of an issuer that the client uses.
#[derive(Debug)]
pub struct Endpoints {
    /// Where logging in begins.
    pub device_authorization_endpoint: String,
    /// Where every grant is exchanged for tokens.
    pub token_endpoint: String,
}

impl TokenError {
    /// What is said of a token that cannot be read.
    pub fn message(self) -> (r: String)
        ensures
            r@ == match self {
                TokenError::NotAToken =>
                    "token is not a JWT: expected three dot-separated segments"@,
                TokenError::NotBase64 => "token payload is not base64url"@,
            },
    {
        match self {
            TokenError::NotAToken =>
                "token is not a JWT: expected three dot-separated segments".to_owned(),
            TokenError::NotBase64 => "token payload is not base64url".to_owned(),
        }
    }
}

/// Seconds between two questions whether a login was approved, where the
/// issuer does not say.
pub fn default_interval() -> (r: u64)
    ensures
        r == 5,
{
    5
}

/// What a form holds.
pub open spec fn form_view(form: Seq<(String, String)>) -> Seq<(Seq<char>, Seq<char>)> {
    form.map_values(|f: (String, String)| (f.0@, f.1@))
}

/// A form with a resource, where one is given.
pub open spec fn form_with(form: Seq<(Seq<char>, Seq<char>)>, resource: Option<Seq<char>>) -> Seq<
    (Seq<char>, Seq<char>),
> {
    match resource {
        Some(r) => form.push(("resource"@, r)),
        None => form,
    }
}

/// Adds the resource to a form, only where one is configured: issuers refuse
/// one that they do not know.
pub fn with_resource(form: Vec<(String, String)>, resource: Option<&str>) -> (r: Vec<
    (String, String),
>)
    ensures
        form_view(r@) == form_with(form_view(form@), opt_str(resource)),
{
    let mut form = form;
    match resource {
        Some(value) => {
            let ghost before = form@;
            form.push(("resource".to_owned(), value.to_owned()));
            assert(form_view(form@) =~= form_view(before).push(("resource"@, value@)));
        },
        None => {},
    }
    form
}

fn field(form: &mut Vec<(String, String)>, name: &str, value: &str)
    ensures
        form_view(final(form)@) == form_view(old(form)@).push((name@, value@)),
{
    form.push((name.to_owned(), value.to_owned()));
    assert(form_view(form@) =~= form_view(old(form)@).push((name@, value@)));
}

/// The form with which logging in begins.
pub fn device_form(client_id: &str, resource: Option<&str>) -> (r: Vec<(String, String)>)
    ensures
        form_view(r@) == form_with(
            seq![("client_id"@, client_id@), ("scope"@, "openid offline_access"@)],
            opt_str(resource),
        ),
{
    let mut form: Vec<(String, String)> = Vec::new();
    field(&mut form, "client_id", client_id);
    field(&mut form, "scope", "openid offline_access");
    assert(form_view(form@) =~= seq![
        ("client_id"@, client_id@),
        ("scope"@, "openid offline_access"@),
    ]);
    with_resource(form, resource)
}

/// The form that asks whether the login was approved.
pub fn poll_form(client_id: &str, device_code: &str, resource: Option<&str>) -> (r: Vec<
    (String, String),
>)
    ensures
        form_view(r@) == form_with(
            seq![
                ("client_id"@, client_id@),
                ("device_code"@, device_code@),
                ("grant_type"@, "urn:ietf:params:oauth:grant-type:device_code"@),
            ],
            opt_str(resource),
        ),
{
    let mut form: Vec<(String, String)> = Vec::new();
    field(&mut form, "client_id", client_id);
    field(&mut form, "device_code", device_code);
    field(&mut form, "grant_type", "urn:ietf:params:oauth:grant-type:device_code");
    assert(form_view(form@) =~= seq![
        ("client_id"@, client_id@),
        ("device_code"@, device_code@),
        ("grant_type"@, "urn:ietf:params:oauth:grant-type:device_code"@),
    ]);
    with_resource(form, resource)
}

/// The form that exchanges a refresh token.
pub fn refresh_form(stored: &StoredToken, resource: Option<&str>) -> (r: Vec<(String, String)>)
    ensures
        form_view(r@) == form_with(
            seq![
                ("client_id"@, stored.client_id@),
                ("refresh_token"@, stored.refresh_token@),
                ("grant_type"@, "refresh_token"@),
            ],
            opt_str(resource),
        ),
{
    let mut form: Vec<(String, String)> = Vec::new();
    field(&mut form, "client_id", stored.client_id.as_str());
    field(&mut form, "refresh_token", stored.refresh_token.as_str());
    field(&mut form, "grant_type", "refresh_token");
    assert(form_view(form@) =~= seq![
        ("client_id"@, stored.client_id@),
        ("refresh_token"@, stored.refresh_token@),
        ("grant_type"@, "refresh_token"@),
    ]);
    with_resource(form, resource)
}

/// The form with which a machine authenticates as itself.
pub fn credentials_form(client_id: &str, client_secret: &str, resource: Option<&str>) -> (r: Vec<
    (String, String),
>)
    ensures
        form_view(r@) == form_with(
            seq![
                ("client_id"@, client_id@),
                ("client_secret"@, client_secret@),
                ("grant_type"@, "client_credentials"@),
            ],
            opt_str(resource),
        ),
{
    let mut form: Vec<(String, String)> = Vec::new();
    field(&mut form, "client_id", client_id);
    field(&mut form, "client_secret", client_secret);
    field(&mut form, "grant_type", "client_credentials");
    assert(form_view(form@) =~= seq![
        ("client_id"@, client_id@),
        ("client_secret"@, client_secret@),
        ("grant_type"@, "client_credentials"@),
    ]);
    with_resource(form, resource)
}

/// What an issuer answers.
#[derive(Debug)]
pub struct TokenResponse {
    /// The access token. There is none while a login waits to be approved.
    pub access_token: Option<String>,
    /// A refresh token in place of the one used.
    pub refresh_token: Option<String>,
    /// Why there is no token.
    pub error: Option<String>,
}

/// Where a login stands.
#[derive(Debug)]
pub enum Login {
    /// Not approved yet: ask again.
    Pending,
    /// It failed, with this message.
    Failed(String),
    /// It was approved.
    Approved {
        /// The access token.
        access_token: String,
        /// What to keep, where the issuer gave a refresh token.
        stored: Option<StoredToken>,
    },
}

/// The issuer says that nothing has happened yet.
pub open spec fn still_waiting(error: Seq<char>) -> bool {
    error == "authorization_pending"@ || error == "slow_down"@
}

/// `stored` keeps a refresh token, where one was given.
pub open spec fn keeps(
    stored: Option<StoredToken>,
    refresh_token: Option<Seq<char>>,
    issuer: Seq<char>,
    client_id: Seq<char>,
) -> bool {
    match stored {
        None => refresh_token is None,
        Some(s) => refresh_token == Some(s.refresh_token@) && s.issuer@ == issuer && s.client_id@
            == client_id,
    }
}

/// Judges the answer to the question whether a login was approved. Neither an
/// error nor a token is no success: the question is asked again, so that no
/// login is reported that did not happen.
pub fn judge_login(response: TokenResponse, issuer: &str, client_id: &str) -> (r: Login)
    ensures
        match r {
            Login::Pending => match response.error {
                Some(e) => still_waiting(e@),
                None => response.access_token is None,
            },
            Login::Failed(m) => response.error is Some && !still_waiting(response.error->0@) && m@
                == "device authorization failed: "@ + response.error->0@,
            Login::Approved { access_token, stored } => response.error is None && opt_text(
                response.access_token,
            ) == Some(access_token@) && keeps(
                stored,
                opt_text(response.refresh_token),
                issuer@,
                client_id@,
            ),
        },
{
    match &response.error {
        Some(e) => {
            if same(e.as_str(), "authorization_pending") || same(e.as_str(), "slow_down") {
                Login::Pending
            } else {
                Login::Failed("device authorization failed: ".to_owned().concat(e.as_str()))
            }
        },
        None => match response.access_token {
            None => Login::Pending,
            Some(access_token) => {
                let stored = rotated(response.refresh_token, issuer, client_id);
                Login::Approved { access_token, stored }
            },
        },
    }
}

/// What to keep of an answer with a refresh token: whoever does not keep the
/// new one cannot get in again.
pub fn rotated(refresh_token: Option<String>, issuer: &str, client_id: &str) -> (r: Option<
    StoredToken,
>)
    ensures
        keeps(r, opt_text(refresh_token), issuer@, client_id@),
{
    match refresh_token {
        None => None,
        Some(refresh_token) => Some(
            StoredToken {
                refresh_token,
                issuer: issuer.to_owned(),
                client_id: client_id.to_owned(),
            },
        ),
    }
}

/// The access token of an answer, or what is said where it holds none.
pub fn access_token(response: &TokenResponse) -> (r: Result<String, String>)
    ensures
        match r {
            Ok(token) => opt_text(response.access_token) == Some(token@),
            Err(m) => response.access_token is None && m@
                == "token response contained no access_token"@,
        },
{
    match &response.access_token {
        Some(token) => Ok(token.clone()),
        None => Err("token response contained no access_token".to_owned()),
    }
}

/// The client and the secret in a file of credentials.
pub fn parse_client_credentials(text: &str) -> (r: Result<(String, String), String>)
    ensures
        match r {
            Ok(pair) => cut_at(trimmed(text@), ':') == Some((pair.0@, pair.1@)),
            Err(m) => cut_at(trimmed(text@), ':') is None && m@
                == "credentials file must contain `client_id:client_secret`"@,
        },
{
    match split_once(trim(text), ':') {
        Some((id, secret)) => Ok((id.to_owned(), secret.to_owned())),
        None => Err("credentials file must contain `client_id:client_secret`".to_owned()),
    }
}

/// Seconds before the end of its life at which a token is replaced.
pub const EXPIRY_MARGIN_SECS: i64 = 60;

/// Seconds for which a token that was issued at `iat` and expires at `exp` may
/// be held. Both are by the issuer's clock, so that a local clock that is wrong
/// does not matter.
pub open spec fn usable_secs(exp: int, iat: int) -> int {
    if exp - iat - EXPIRY_MARGIN_SECS > 0 {
        exp - iat - EXPIRY_MARGIN_SECS
    } else {
        0
    }
}

/// Seconds for which a token may be held; `None` where it does not say how
/// long it lives.
pub fn declared_max_age(exp: Option<i64>, iat: Option<i64>) -> (r: Option<u64>)
    ensures
        match (exp, iat) {
            (Some(e), Some(i)) => r is Some && r->0 == usable_secs(e as int, i as int),
            _ => r is None,
        },
{
    match (exp, iat) {
        (Some(e), Some(i)) => {
            let usable: i128 = e as i128 - i as i128 - EXPIRY_MARGIN_SECS as i128;
            if usable > 0 {
                Some(usable as u64)
            } else {
                Some(0)
            }
        },
        _ => None,
    }
}

/// Where the next token comes from.
#[derive(Debug)]
pub enum Mint {
    /// It was handed in, and nothing can replace it.
    Given(String),
    /// The runner of a GitHub workflow.
    Github {
        /// Where to ask.
        url: String,
        /// The token to ask with.
        request_token: String,
        /// Whom the token is for.
        audience: String,
    },
    /// The refresh token that logging in stored.
    Stored {
        /// The resource to name.
        resource: Option<String>,
    },
    /// The client of a machine.
    ClientCredentials {
        /// The issuer.
        issuer: String,
        /// The client.
        client_id: String,
        /// Its secret.
        client_secret: String,
        /// The resource to name.
        resource: Option<String>,
    },
}

/// Where tokens come from, by what the surroundings offer: a token that is
/// handed in, then the runner of a workflow, then what logging in stored.
pub fn mint_from_env(
    given: Option<String>,
    request_url: Option<String>,
    request_token: Option<String>,
    audience: &str,
    resource: Option<&str>,
) -> (r: Mint)
    ensures
        match r {
            Mint::Given(token) => given == Some(token),
            Mint::Github { url, request_token: token, audience: a } => given is None
                && request_url == Some(url) && request_token == Some(token) && a@ == audience@,
            Mint::Stored { resource: res } => given is None && (request_url is None
                || request_token is None) && opt_text(res) == opt_str(resource),
            Mint::ClientCredentials { .. } => false,
        },
{
    match given {
        Some(token) => Mint::Given(token),
        None => match (request_url, request_token) {
            (Some(url), Some(request_token)) => Mint::Github {
                url,
                request_token,
                audience: audience.to_owned(),
            },
            _ => Mint::Stored {
                resource: match resource {
                    Some(r) => Some(r.to_owned()),
                    None => None,
                },
            },
        },
    }
}

/// A token that is held.
#[derive(Debug)]
pub struct Held {
    /// The token.
    pub token: String,
    /// When it was issued, in milliseconds of the local clock.
    pub minted_ms: u64,
    /// Seconds for which it may be held; `None` until it is refused.
    pub max_age_secs: Option<u64>,
}

/// A bearer token that is valid as long as a run takes: a run may take longer
/// than any one token lives, so that each request asks for one.
pub struct TokenSource {
    /// Where the next one comes from.
    pub mint: Mint,
    /// The one that is held.
    pub held: Option<Held>,
}

/// How a refused token is replaced.
#[derive(Debug)]
pub enum Renewal {
    /// It cannot be.
    Never,
    /// By this one, which is held already: another request has replaced it.
    Use(String),
    /// By a new one.
    Mint,
}

impl Held {
    /// The token may be sent at `now_ms`.
    pub open spec fn is_usable(self, now_ms: u64) -> bool {
        match self.max_age_secs {
            None => true,
            Some(secs) => now_ms - self.minted_ms < secs * 1000,
        }
    }
}

impl TokenSource {
    /// No token is held yet.
    pub fn new(mint: Mint) -> (r: Self)
        ensures
            r.mint == mint,
            r.held is None,
    {
        TokenSource { mint, held: None }
    }

    /// The token to send now; `None` where a new one is needed first, because
    /// none is held or it has grown too old.
    pub fn get(&self, now_ms: u64) -> (r: Option<String>)
        ensures
            r is Some <==> self.held is Some && self.held->0.is_usable(now_ms),
            r matches Some(token) ==> token@ == self.held->0.token@,
    {
        match &self.held {
            None => None,
            Some(held) => {
                let usable = match held.max_age_secs {
                    None => true,
                    Some(secs) => (now_ms as i128 - held.minted_ms as i128) < secs as i128
                        * 1000,
                };
                if usable {
                    Some(held.token.clone())
                } else {
                    None
                }
            },
        }
    }

    /// How a token is replaced that the server refused. Of several requests
    /// with the same token only the first gets a new one, since each use of a
    /// refresh token may replace that.
    pub fn renew(&self, rejected: &str) -> (r: Renewal)
        ensures
            match r {
                Renewal::Never => self.mint is Given,
                Renewal::Use(token) => !(self.mint is Given) && self.held is Some
                    && self.held->0.token@ != rejected@ && token@ == self.held->0.token@,
                Renewal::Mint => !(self.mint is Given) && (self.held is None
                    || self.held->0.token@ == rejected@),
            },
    {
        match &self.mint {
            Mint::Given(_) => {
                return Renewal::Never;
            },
            _ => {},
        }
        match &self.held {
            None => Renewal::Mint,
            Some(held) => if same(held.token.as_str(), rejected) {
                Renewal::Mint
            } else {
                Renewal::Use(held.token.clone())
            },
        }
    }

    /// A new token was issued; it is held as long as its own claims allow.
    pub fn minted(&mut self, token: String, exp: Option<i64>, iat: Option<i64>, now_ms: u64)
        ensures
            final(self).mint == old(self).mint,
            final(self).held is Some,
            final(self).held->0.token == token,
            final(self).held->0.minted_ms == now_ms,
            match (exp, iat) {
                (Some(e), Some(i)) => final(self).held->0.max_age_secs is Some && final(
                    self).held->0.max_age_secs->0 == usable_secs(e as int, i as int),
                _ => final(self).held->0.max_age_secs is None,
            },
    {
        self.held = Some(
            Held { token, minted_ms: now_ms, max_age_secs: declared_max_age(exp, iat) },
        );
    }
}

/// A token is not sent in the last minute of its life, by the issuer's count.
pub proof fn tokens_are_replaced_in_time(held: Held, exp: int, iat: int, now_ms: u64)
    requires
        held.max_age_secs is Some,
        held.max_age_secs->0 == usable_secs(exp, iat),
        held.minted_ms <= now_ms,
        held.is_usable(now_ms),
    ensures
        now_ms - held.minted_ms < (exp - iat - EXPIRY_MARGIN_SECS) * 1000,
{
}

/// A token is sent until a minute before the end of its life, by the issuer's
/// count of how long that is, and one that says nothing of it for good.
pub proof fn tokens_are_sent_until_their_last_minute(held: Held, exp: int, iat: int, now_ms: u64)
    requires
        held.minted_ms <= now_ms,
        held.max_age_secs is Some ==> held.max_age_secs->0 == usable_secs(exp, iat),
    ensures
        held.max_age_secs is None ==> held.is_usable(now_ms),
        held.max_age_secs is Some ==> (held.is_usable(now_ms) <==> now_ms - held.minted_ms < (exp
            - iat - 60) * 1000),
        usable_secs(exp, iat) >= 0,
{
}

/// A resource is added behind what a form holds, and only where one is given.
pub proof fn resources_are_added_where_given(
    form: Seq<(Seq<char>, Seq<char>)>,
    resource: Seq<char>,
    i: int,
)
    ensures
        form_with(form, None) == form,
        form_with(form, Some(resource)).len() == form.len() + 1,
        0 <= i < form.len() ==> form_with(form, Some(resource))[i] == form[i],
        form_with(form, Some(resource)).last() == ("resource"@, resource),
{
}

/// Only two errors mean that nothing has happened yet.
pub proof fn two_errors_mean_waiting(error: Seq<char>)
    ensures
        still_waiting("authorization_pending"@),
        still_waiting("slow_down"@),
        still_waiting(error) ==> error == "authorization_pending"@ || error == "slow_down"@,
{
}

/// A refresh token that came is kept with the issuer and the client it is for,
/// and where none came nothing is kept.
pub proof fn refresh_tokens_are_kept(
    stored: Option<StoredToken>,
    refresh_token: Option<Seq<char>>,
    issuer: Seq<char>,
    client_id: Seq<char>,
)
    requires
        keeps(stored, refresh_token, issuer, client_id),
    ensures
        stored is Some <==> refresh_token is Some,
        stored is Some ==> stored->0.refresh_token@ == refresh_token->0 && stored->0.issuer@ == issuer
            && stored->0.client_id@ == client_id,
{
}

} // verus!
