use rocket_oidc::SessionCookie;
use rocket_oidc::routes::{CallbackError, CallbackResponse, ExchangeOutcome, handle_callback};

#[test]
fn failed_exchange_is_terminal_error_without_session() {
    let r = handle_callback(ExchangeOutcome::Failed, Some(b"/dashboard".to_vec()));
    assert!(matches!(r, CallbackResponse::Error(CallbackError::ExchangeFailed)));
}

#[test]
fn missing_id_token_creates_no_session_and_redirects_to_root() {
    let r = handle_callback(
        ExchangeOutcome::Success { access_token: b"AT".to_vec(), id_token: None },
        Some(b"/dashboard".to_vec()),
    );
    match r {
        CallbackResponse::Redirect { location, set_session_cookie, delete_redirect_cookie } => {
            assert_eq!(location, b"/".to_vec());
            assert!(set_session_cookie.is_none());
            assert!(!delete_redirect_cookie);
        }
        _ => panic!("expected a redirect"),
    }
}

#[test]
fn successful_exchange_sets_session_and_restores_destination() {
    let r = handle_callback(
        ExchangeOutcome::Success { access_token: b"AT".to_vec(), id_token: Some(b"IDT".to_vec()) },
        Some(b"/dashboard".to_vec()),
    );
    match r {
        CallbackResponse::Redirect { location, set_session_cookie, delete_redirect_cookie } => {
            assert_eq!(location, b"/dashboard".to_vec());
            assert!(delete_redirect_cookie);
            let cookie_bytes = set_session_cookie.expect("a session cookie must be set");
            let session = SessionCookie::decode(&cookie_bytes).expect("the set cookie decodes");
            assert_eq!(session.access_token, b"AT".to_vec());
            assert_eq!(session.id_token, b"IDT".to_vec());
        }
        _ => panic!("expected a redirect"),
    }
}

#[test]
fn successful_exchange_without_destination_redirects_to_root() {
    let r = handle_callback(
        ExchangeOutcome::Success { access_token: b"AT".to_vec(), id_token: Some(b"IDT".to_vec()) },
        None,
    );
    match r {
        CallbackResponse::Redirect { location, set_session_cookie, delete_redirect_cookie } => {
            assert_eq!(location, b"/".to_vec());
            assert!(set_session_cookie.is_some());
            assert!(!delete_redirect_cookie);
        }
        _ => panic!("expected a redirect"),
    }
}
