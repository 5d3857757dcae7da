use rocket_oidc::SessionCookie;
use rocket_oidc::application::{OidcApplication, query_param};
use rocket_oidc::guard::{IdentityClaims, Resolution, Verification, resolve};
use rocket_oidc::routes::{CallbackResponse, ExchangeOutcome, handle_callback};

fn app() -> OidcApplication {
    OidcApplication::new(
        b"https://provider.example/authorize".to_vec(),
        b"client-1".to_vec(),
        b"https://app.example/oidc_redirect".to_vec(),
        b"csrf token+x".to_vec(),
        b"nonce/value".to_vec(),
    )
}

#[test]
fn authorize_url_has_the_exact_wire_form() {
    let a = OidcApplication::new(
        b"https://p.example/auth".to_vec(),
        b"abc123".to_vec(),
        b"https://app/cb".to_vec(),
        b"st".to_vec(),
        b"no".to_vec(),
    );
    assert_eq!(
        String::from_utf8(a.authorize_url).unwrap(),
        "https://p.example/auth?response_type=code&client_id=abc123&state=st&nonce=no\
         &redirect_uri=https%3A%2F%2Fapp%2Fcb&scope=openid"
    );
}

#[test]
fn authorize_url_embeds_csrf_and_nonce_verbatim() {
    let a = app();
    assert_eq!(
        query_param(&a.authorize_url, &b"state".to_vec()),
        Some(b"csrf token+x".to_vec())
    );
    assert_eq!(query_param(&a.authorize_url, &b"nonce".to_vec()), Some(b"nonce/value".to_vec()));
    assert_eq!(
        query_param(&a.authorize_url, &b"client_id".to_vec()),
        Some(b"client-1".to_vec())
    );
    assert_eq!(query_param(&a.authorize_url, &b"absent".to_vec()), None);
}

#[test]
fn endpoint_with_query_part_is_joined_with_ampersand() {
    let a = OidcApplication::new(
        b"https://p.example/auth?tenant=1".to_vec(),
        b"c".to_vec(),
        b"https://app/cb".to_vec(),
        b"s".to_vec(),
        b"n".to_vec(),
    );
    assert_eq!(
        String::from_utf8(a.authorize_url.clone()).unwrap(),
        "https://p.example/auth?tenant=1&response_type=code&client_id=c&state=s&nonce=n\
         &redirect_uri=https%3A%2F%2Fapp%2Fcb&scope=openid"
    );
    assert_eq!(query_param(&a.authorize_url, &b"state".to_vec()), Some(b"s".to_vec()));
    assert_eq!(query_param(&a.authorize_url, &b"nonce".to_vec()), Some(b"n".to_vec()));
    assert_eq!(query_param(&a.authorize_url, &b"tenant".to_vec()), Some(b"1".to_vec()));
}

#[test]
fn endpoint_ending_in_question_mark_gets_no_extra_separator() {
    let a = OidcApplication::new(
        b"https://p.example/auth?".to_vec(),
        b"c".to_vec(),
        b"https://app/cb".to_vec(),
        b"s".to_vec(),
        b"n".to_vec(),
    );
    assert_eq!(
        String::from_utf8(a.authorize_url).unwrap(),
        "https://p.example/auth?response_type=code&client_id=c&state=s&nonce=n\
         &redirect_uri=https%3A%2F%2Fapp%2Fcb&scope=openid"
    );
}

#[test]
fn query_param_on_url_without_query_is_none() {
    assert_eq!(query_param(&b"https://p.example/auth".to_vec(), &b"state".to_vec()), None);
}

#[test]
fn query_param_rejects_bad_percent_encoding() {
    assert_eq!(query_param(&b"https://x/?state=a%zz".to_vec(), &b"state".to_vec()), None);
}

// End-to-end: an unauthenticated request records its destination, sign-in
// goes to the precomputed authorize URL, the callback sets a session that
// later resolves to the authenticated user.
#[test]
fn full_flow_from_unauthenticated_to_authenticated() {
    let a = app();

    // request for /dashboard with no cookies
    let out = resolve(None, true, None);
    assert!(matches!(out.decision, Resolution::Unauthenticated));
    assert!(out.set_redirect_destination);
    let stored_destination = b"/dashboard".to_vec();

    // the sign-in route redirects to the precomputed authorize URL
    assert!(!a.authorize_url.is_empty());

    // provider calls back; the exchange succeeds with an identity token
    let response = handle_callback(
        ExchangeOutcome::Success {
            access_token: b"AT".to_vec(),
            id_token: Some(b"IDT".to_vec()),
        },
        Some(stored_destination),
    );
    let session_bytes = match response {
        CallbackResponse::Redirect { location, set_session_cookie, delete_redirect_cookie } => {
            assert_eq!(location, b"/dashboard".to_vec());
            assert!(delete_redirect_cookie);
            set_session_cookie.unwrap()
        }
        _ => panic!("expected a redirect"),
    };

    // the next request presents the cookie; verification succeeds
    let session = SessionCookie::decode(&session_bytes).unwrap();
    assert_eq!(session.id_token, b"IDT".to_vec());
    let out = resolve(
        Some(session_bytes),
        true,
        Some(Verification::Verified(IdentityClaims {
            preferred_username: Some(b"jdoe".to_vec()),
            name: None,
        })),
    );
    match out.decision {
        Resolution::Authenticated(user) => {
            assert_eq!(user.preferred_username, Some(b"jdoe".to_vec()));
        }
        _ => panic!("expected an authenticated identity"),
    }
}
