//! The website's API as the companion sees it: the replies it decodes, the
//! errors it reports, and which error an HTTP status gives.

use vstd::prelude::*;
use crate::text::{push_str, nat_decimal, u64_to_string};

verus! {

/// Why a request to the website failed.
#[derive(Debug)]
pub enum ApiError {
    /// 401: the token was refused (the reply's text).
    Unauthorized(String),
    /// 400 on an endpoint that reports it (the reply's text).
    BadRequest(String),
    /// Any other status, or a reply that could not be decoded.
    ServerError(String),
    /// The request did not reach the website.
    NetworkError(String),
}

/// The text of an [`ApiError`], as the user sees it.
pub open spec fn api_error_text(e: ApiError) -> Seq<char> {
    match e {
        ApiError::Unauthorized(d) => if d@.len() == 0 {
            "Token expired or revoked"@
        } else {
            "Token expired or revoked ("@ + d@ + ")"@
        },
        ApiError::BadRequest(m) => "Bad request: "@ + m@,
        ApiError::ServerError(m) => "Server error: "@ + m@,
        ApiError::NetworkError(m) => "Network error: "@ + m@,
    }
}

impl ApiError {
    /// The error's text, as the user sees it.
    pub fn describe(&self) -> (r: String)
        ensures
            r@ == api_error_text(*self),
    {
        let mut r = String::new();
        match self {
            ApiError::Unauthorized(d) => {
                push_str(&mut r, "Token expired or revoked");
                if !d.as_str().is_empty() {
                    push_str(&mut r, " (");
                    push_str(&mut r, d.as_str());
                    push_str(&mut r, ")");
                    assert(r@ =~= "Token expired or revoked"@ + " ("@ + d@ + ")"@);
                    proof {
                        reveal_strlit("Token expired or revoked");
                        reveal_strlit(" (");
                        reveal_strlit("Token expired or revoked (");
                    }
                    assert("Token expired or revoked"@ + " ("@ =~= "Token expired or revoked ("@);
                    assert(r@ =~= "Token expired or revoked ("@ + d@ + ")"@);
                } else {
                    assert(r@ =~= "Token expired or revoked"@);
                }
            },
            ApiError::BadRequest(m) => {
                push_str(&mut r, "Bad request: ");
                push_str(&mut r, m.as_str());
                assert(r@ =~= "Bad request: "@ + m@);
            },
            ApiError::ServerError(m) => {
                push_str(&mut r, "Server error: ");
                push_str(&mut r, m.as_str());
                assert(r@ =~= "Server error: "@ + m@);
            },
            ApiError::NetworkError(m) => {
                push_str(&mut r, "Network error: ");
                push_str(&mut r, m.as_str());
                assert(r@ =~= "Network error: "@ + m@);
            },
        }
        r
    }
}

/// The reply to a character sync.
#[derive(Debug)]
pub struct SyncResponse {
    pub synced: u32,
    pub updated: u32,
    pub timestamp: String,
}

/// The account that a token belongs to.
#[derive(Debug)]
pub struct UserInfo {
    pub display_name: String,
    pub discord_username: Option<String>,
    pub avatar_url: Option<String>,
}

/// The account's last sync.
#[derive(Debug)]
pub struct LastSyncInfo {
    pub timestamp: String,
    pub imported: u32,
    pub updated: u32,
}

/// The reply to a status request.
#[derive(Debug)]
pub struct StatusResponse {
    pub connected: bool,
    pub auth_method: String,
    pub user: UserInfo,
    pub last_sync: Option<LastSyncInfo>,
    pub character_count: u32,
}

/// The reply to a GDKP sync.
#[derive(Debug)]
pub struct GdkpSyncResponse {
    pub sessions_imported: u32,
    pub sessions_updated: u32,
    pub items_imported: u32,
    pub import_id: Option<String>,
}

/// The website's address.
pub open spec fn base_url() -> Seq<char> {
    "https://www.goldschweine.de"@
}

/// The address of the endpoint `path` (such as `/api/chartracker/sync`).
pub fn endpoint_url(path: &str) -> (r: String)
    ensures
        r@ == base_url() + path@,
{
    let mut r = String::new();
    push_str(&mut r, "https://www.goldschweine.de");
    push_str(&mut r, path);
    assert(r@ =~= base_url() + path@);
    r
}

/// The `Authorization` header's value for a token.
pub fn bearer(token: &str) -> (r: String)
    ensures
        r@ == "Bearer "@ + token@,
{
    let mut r = String::new();
    push_str(&mut r, "Bearer ");
    push_str(&mut r, token);
    assert(r@ =~= "Bearer "@ + token@);
    r
}

/// The error for a reply whose status is not 200, with the reply's text:
/// 401 is `Unauthorized`, 400 is `BadRequest` on endpoints that report it,
/// any other status is `ServerError("HTTP <status>: <text>")`.
pub fn status_error(status: u16, text: String, reports_bad_request: bool) -> (r: ApiError)
    requires
        status != 200,
    ensures
        status == 401 ==> r == ApiError::Unauthorized(text),
        status == 400 && reports_bad_request ==> r == ApiError::BadRequest(text),
        status != 401 && !(status == 400 && reports_bad_request) ==> (r matches ApiError::ServerError(
            m,
        ) && m@ == "HTTP "@ + nat_decimal(status as nat) + ": "@ + text@),
{
    if status == 401 {
        ApiError::Unauthorized(text)
    } else if status == 400 && reports_bad_request {
        ApiError::BadRequest(text)
    } else {
        let mut m = String::new();
        push_str(&mut m, "HTTP ");
        let digits = u64_to_string(status as u64);
        push_str(&mut m, digits.as_str());
        push_str(&mut m, ": ");
        push_str(&mut m, text.as_str());
        assert(m@ =~= "HTTP "@ + nat_decimal(status as nat) + ": "@ + text@);
        ApiError::ServerError(m)
    }
}

/// The error for a 200 reply that could not be decoded (`detail` says why).
pub fn parse_failure(detail: &str) -> (r: ApiError)
    ensures
        r matches ApiError::ServerError(m) && m@ == "Failed to parse response: "@ + detail@,
{
    let mut m = String::new();
    push_str(&mut m, "Failed to parse response: ");
    push_str(&mut m, detail);
    assert(m@ =~= "Failed to parse response: "@ + detail@);
    ApiError::ServerError(m)
}

} // verus!
