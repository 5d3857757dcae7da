//! Provider-callback protocol.
//!
//! On the provider's redirect back, the host exchanges the single-use
//! authorization code at the token endpoint (a network round trip outside
//! this core) and hands the outcome in as a value. This module decides the
//! whole response: whether a session cookie is set and to what, whether the
//! saved redirect destination is consumed, and where the browser goes.
//!
//! The callback also carries the echoed `state` parameter. It is accepted
//! as received and not compared against the stored CSRF token, keeping the
//! behaviour an existing deployment relies on; a host that wants strict
//! checking can compare it with the application's `csrf_state` before
//! invoking the exchange.

use vstd::prelude::*;
use crate::session::SessionCookie;
use crate::session::spec_encode;

verus! {

/// What the token-endpoint round trip for the callback's code returned.
pub enum ExchangeOutcome {
    /// The provider rejected the code (expired or already used) or could
    /// not be reached. Codes are single-use: this is terminal, no retry.
    Failed,
    /// Exchange succeeded: the access token, and the identity token if the
    /// response carried one.
    Success { access_token: Vec<u8>, id_token: Option<Vec<u8>> },
}

/// Terminal callback failures, answered to the browser as a server error
/// with a short diagnostic.
pub enum CallbackError {
    ExchangeFailed,
}

/// The full response the host must send for a callback request.
pub enum CallbackResponse {
    /// Answer a server error carrying the named failure.
    Error(CallbackError),
    /// Redirect the browser to `location`, after setting the session cookie
    /// to `set_session_cookie` if given, and deleting the stored redirect
    /// destination if `delete_redirect_cookie`.
    Redirect {
        location: Vec<u8>,
        set_session_cookie: Option<Vec<u8>>,
        delete_redirect_cookie: bool,
    },
}

/// The application root, the default redirect target.
pub open spec fn root_path() -> Seq<u8> {
    seq![0x2fu8]
}

fn root_vec() -> (v: Vec<u8>)
    ensures
        v@ == root_path(),
{
    let mut v: Vec<u8> = Vec::new();
    v.push(0x2f);
    proof {
        assert(v@ =~= root_path());
    }
    v
}

/// Decide the callback response from the exchange outcome and the stored
/// redirect destination.
///
/// A failed exchange is a terminal error and never sets a cookie. A
/// successful exchange without an identity token creates no session and
/// redirects to the root without consuming the stored destination. A
/// successful exchange with an identity token sets the session cookie to
/// exactly the encoding of the two tokens, then consumes the destination if
/// one is stored and redirects there, or to the root if none is.
pub fn handle_callback(exchange: ExchangeOutcome, destination: Option<Vec<u8>>) -> (r:
    CallbackResponse)
    ensures
        match exchange {
            ExchangeOutcome::Failed => r == CallbackResponse::Error(CallbackError::ExchangeFailed),
            ExchangeOutcome::Success { access_token, id_token } => match id_token {
                None => (r matches CallbackResponse::Redirect {
                    location,
                    set_session_cookie,
                    delete_redirect_cookie,
                } && location@ == root_path() && set_session_cookie == None::<Vec<u8>>
                    && !delete_redirect_cookie),
                Some(idt) => (r matches CallbackResponse::Redirect {
                    location,
                    set_session_cookie,
                    delete_redirect_cookie,
                } && (set_session_cookie matches Some(sc) && sc@ == spec_encode(
                    access_token@,
                    idt@,
                )) && (match destination {
                    Some(d) => location@ == d@ && delete_redirect_cookie,
                    None => location@ == root_path() && !delete_redirect_cookie,
                })),
            },
        },
{
    match exchange {
        ExchangeOutcome::Failed => CallbackResponse::Error(CallbackError::ExchangeFailed),
        ExchangeOutcome::Success { access_token, id_token } => match id_token {
            None => CallbackResponse::Redirect {
                location: root_vec(),
                set_session_cookie: None,
                delete_redirect_cookie: false,
            },
            Some(idt) => {
                let cookie = SessionCookie { access_token, id_token: idt };
                let encoded = cookie.encode();
                match destination {
                    Some(d) => CallbackResponse::Redirect {
                        location: d,
                        set_session_cookie: Some(encoded),
                        delete_redirect_cookie: true,
                    },
                    None => CallbackResponse::Redirect {
                        location: root_vec(),
                        set_session_cookie: Some(encoded),
                        delete_redirect_cookie: false,
                    },
                }
            },
        },
    }
}

} // verus!
