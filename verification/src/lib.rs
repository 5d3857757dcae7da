//! OpenID Connect authentication session core.
//!
//! The verified heart of an OIDC authentication layer for a web application:
//! the session-cookie wire format and its codec, the per-application
//! authorization state (authorize URL, CSRF token, nonce), the per-request
//! authentication resolution state machine, and the provider-callback
//! protocol. The host framework and the network-bound provider calls live
//! outside this crate and drive these functions with plain values.

use vstd::prelude::*;

pub mod application;
pub mod guard;
pub mod routes;
pub mod session;

pub use application::OidcApplication;
pub use guard::OidcUser;
pub use session::SessionCookie;

verus! {

/// Name of the cookie holding the encoded session. Part of the wire
/// contract: it must match exactly for interoperability with an existing
/// deployment.
pub fn session_cookie_name() -> (r: &'static str)
    ensures
        r@ == "oidc_user_session"@,
{
    "oidc_user_session"
}

/// Name of the single-use cookie holding the path an unauthenticated
/// request wanted to reach. Part of the wire contract.
pub fn redirect_destination_cookie_name() -> (r: &'static str)
    ensures
        r@ == "oidc_redirect_destination"@,
{
    "oidc_redirect_destination"
}

} // verus!
