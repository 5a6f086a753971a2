//! Supabase request shaping and session parsing. No HTTP is done here: the
//! request builders describe a request that the caller sends with a client
//! of its choice.

use vstd::prelude::*;

use crate::json::{json_string_member, json_string_members};
use crate::jwt::{email_from_jwt, jwt_string_claim, user_id_from_jwt};
use crate::text::opt_string_view;

verus! {

/// Supabase project configuration: the project URL and its anon key.
#[derive(Debug, Clone)]
pub struct SupabaseConfig {
    pub base_url: String,
    pub anon_key: String,
}

/// Everything needed to make an HTTP request.
pub struct RequestDetails {
    pub url: String,
    pub method: String,
    pub headers: Vec<(String, String)>,
    pub body: Option<String>,
}

/// Authenticated session data shared across frontends.
#[derive(Debug, Clone)]
pub struct AuthSession {
    pub access_token: String,
    pub refresh_token: String,
    pub user_id: String,
    pub email: String,
}

impl View for AuthSession {
    /// Access token, refresh token, user id and email.
    type V = (Seq<char>, Seq<char>, Seq<char>, Seq<char>);

    open spec fn view(&self) -> Self::V {
        (self.access_token@, self.refresh_token@, self.user_id@, self.email@)
    }
}

/// The view of an optional session.
pub open spec fn opt_session_view(o: Option<AuthSession>) -> Option<
    (Seq<char>, Seq<char>, Seq<char>, Seq<char>),
> {
    match o {
        Some(s) => Some(s@),
        None => None,
    }
}

/// The body of a token-refresh request: a JSON object whose one member,
/// `refresh_token`, is the token, written in as it is.
pub open spec fn refresh_body(refresh_token: Seq<char>) -> Seq<char> {
    "{\"refresh_token\":\""@ + refresh_token + "\"}"@
}

/// The session that a token-refresh response gives: it needs an access
/// token that carries a `sub` claim (the user id); the refresh token falls
/// back to the old one when the response has none, and the email is empty
/// when the access token has no `email` claim.
pub open spec fn refreshed_session(
    access_token: Option<Seq<char>>,
    refresh_token: Option<Seq<char>>,
    old_refresh_token: Seq<char>,
) -> Option<(Seq<char>, Seq<char>, Seq<char>, Seq<char>)> {
    match access_token {
        Some(a) => match jwt_string_claim(a, "sub"@) {
            Some(user_id) => Some(
                (
                    a,
                    match refresh_token {
                        Some(t) => t,
                        None => old_refresh_token,
                    },
                    user_id,
                    match jwt_string_claim(a, "email"@) {
                        Some(e) => e,
                        None => Seq::empty(),
                    },
                ),
            ),
            None => None,
        },
        None => None,
    }
}

/// The string member `key` of a JSON value, if it has one.
pub open spec fn string_member(json: serde_json::Value, key: Seq<char>) -> Option<Seq<char>> {
    if json_string_members(json).contains_key(key) {
        Some(json_string_members(json)[key])
    } else {
        None
    }
}

/// The standard Supabase request headers: `apikey` with the anon key, and
/// `Authorization` with the access token as a bearer token.
pub fn common_headers(config: &SupabaseConfig, access_token: &str) -> (r: Vec<(String, String)>)
    ensures
        r@.len() == 2,
        r@[0].0@ == "apikey"@,
        r@[0].1@ == config.anon_key@,
        r@[1].0@ == "Authorization"@,
        r@[1].1@ == "Bearer "@ + access_token@,
{
    let bearer = "Bearer ".to_string().concat(access_token);
    vec![("apikey".to_string(), config.anon_key.clone()), ("Authorization".to_string(), bearer)]
}

/// A request that refreshes an access token with a refresh token: a `POST`
/// to the project's token endpoint with the anon key and a JSON body.
pub fn refresh_token_request(config: &SupabaseConfig, refresh_token: &str) -> (r: RequestDetails)
    ensures
        r.url@ == config.base_url@ + "/auth/v1/token?grant_type=refresh_token"@,
        r.method@ == "POST"@,
        r.headers@.len() == 2,
        r.headers@[0].0@ == "apikey"@,
        r.headers@[0].1@ == config.anon_key@,
        r.headers@[1].0@ == "Content-Type"@,
        r.headers@[1].1@ == "application/json"@,
        opt_string_view(r.body) == Some(refresh_body(refresh_token@)),
{
    let url = config.base_url.clone().concat("/auth/v1/token?grant_type=refresh_token");
    let body = "{\"refresh_token\":\"".to_string().concat(refresh_token).concat("\"}");
    RequestDetails {
        url,
        method: "POST".to_string(),
        headers: vec![
            ("apikey".to_string(), config.anon_key.clone()),
            ("Content-Type".to_string(), "application/json".to_string()),
        ],
        body: Some(body),
    }
}

/// The session that a token-refresh response gives, from its access token
/// and refresh token (each `None` when the response has none), and the
/// refresh token used for the request, kept when the response has no new one.
pub fn session_from_tokens(
    access_token: Option<String>,
    refresh_token: Option<String>,
    old_refresh_token: &str,
) -> (r: Option<AuthSession>)
    ensures
        opt_session_view(r) == refreshed_session(
            opt_string_view(access_token),
            opt_string_view(refresh_token),
            old_refresh_token@,
        ),
{
    let access_token = match access_token {
        Some(a) => a,
        None => return None,
    };
    let refresh_token = match refresh_token {
        Some(t) => t,
        None => old_refresh_token.to_string(),
    };
    let user_id = match user_id_from_jwt(access_token.as_str()) {
        Some(u) => u,
        None => return None,
    };
    let email = match email_from_jwt(access_token.as_str()) {
        Some(e) => e,
        None => String::new(),
    };
    Some(AuthSession { access_token, refresh_token, user_id, email })
}

/// Parses a token-refresh JSON response into a session. `old_refresh_token`
/// is the fallback when the response does not include a new refresh token:
/// Supabase does not always rotate it.
pub fn parse_refresh_response(json: &serde_json::Value, old_refresh_token: &str) -> (r: Option<
    AuthSession,
>)
    ensures
        opt_session_view(r) == refreshed_session(
            string_member(*json, "access_token"@),
            string_member(*json, "refresh_token"@),
            old_refresh_token@,
        ),
{
    let access_token = json_string_member(json, "access_token");
    let refresh_token = json_string_member(json, "refresh_token");
    session_from_tokens(access_token, refresh_token, old_refresh_token)
}

} // verus!
