use rocket_oidc::SessionCookie;
use rocket_oidc::guard::{IdentityClaims, OidcUser, Resolution, Verification, resolve};

fn valid_cookie_bytes() -> Vec<u8> {
    SessionCookie { access_token: b"AT".to_vec(), id_token: b"IDT".to_vec() }.encode()
}

fn claims() -> IdentityClaims {
    IdentityClaims {
        preferred_username: Some(b"jdoe".to_vec()),
        name: Some(vec![(Some(b"en".to_vec()), b"Jane Doe".to_vec()), (None, b"J. Doe".to_vec())]),
    }
}

#[test]
fn no_cookie_is_unauthenticated_and_records_destination() {
    let out = resolve(None, true, None);
    assert!(matches!(out.decision, Resolution::Unauthenticated));
    assert!(!out.delete_session_cookie);
    assert!(out.set_redirect_destination);
}

#[test]
fn malformed_cookie_is_deleted_and_unauthenticated() {
    let out = resolve(Some(b"not a session".to_vec()), true, None);
    assert!(matches!(out.decision, Resolution::Unauthenticated));
    assert!(out.delete_session_cookie);
    assert!(out.set_redirect_destination);
}

#[test]
fn rejected_verification_is_auth_error_and_deletes_cookie() {
    let out = resolve(Some(valid_cookie_bytes()), true, Some(Verification::Rejected));
    assert!(matches!(out.decision, Resolution::AuthError));
    assert!(out.delete_session_cookie);
    assert!(!out.set_redirect_destination);
}

#[test]
fn valid_session_is_authenticated() {
    let out = resolve(Some(valid_cookie_bytes()), true, Some(Verification::Verified(claims())));
    match out.decision {
        Resolution::Authenticated(user) => {
            assert_eq!(user.preferred_username, Some(b"jdoe".to_vec()));
            assert_eq!(user.name(), Some(b"J. Doe".to_vec()));
        }
        _ => panic!("expected an authenticated identity"),
    }
    assert!(!out.delete_session_cookie);
    assert!(!out.set_redirect_destination);
}

#[test]
fn resolution_is_idempotent_for_valid_sessions() {
    let first = resolve(Some(valid_cookie_bytes()), true, Some(Verification::Verified(claims())));
    // the first resolution mutates no cookie, so the second sees the same one
    assert!(!first.delete_session_cookie);
    assert!(!first.set_redirect_destination);
    let second = resolve(Some(valid_cookie_bytes()), true, Some(Verification::Verified(claims())));
    match (first.decision, second.decision) {
        (Resolution::Authenticated(a), Resolution::Authenticated(b)) => {
            assert_eq!(a.preferred_username, b.preferred_username);
            assert_eq!(a.name(), b.name());
        }
        _ => panic!("expected authenticated identities both times"),
    }
    assert_eq!(first.delete_session_cookie, second.delete_session_cookie);
    assert_eq!(first.set_redirect_destination, second.set_redirect_destination);
}

#[test]
fn missing_application_state_passes_through() {
    let out = resolve(Some(valid_cookie_bytes()), false, None);
    assert!(matches!(out.decision, Resolution::PassThrough));
    assert!(!out.delete_session_cookie);
    assert!(!out.set_redirect_destination);
}

#[test]
fn name_prefers_the_unlocalized_entry() {
    let user = OidcUser {
        preferred_username: None,
        name: Some(vec![
            (Some(b"de".to_vec()), b"Erika".to_vec()),
            (None, b"Erika M.".to_vec()),
            (None, b"ignored later entry".to_vec()),
        ]),
    };
    assert_eq!(user.name(), Some(b"Erika M.".to_vec()));
}

#[test]
fn name_is_none_without_unlocalized_entry() {
    let only_tagged = OidcUser {
        preferred_username: None,
        name: Some(vec![(Some(b"en".to_vec()), b"Jane".to_vec())]),
    };
    assert_eq!(only_tagged.name(), None);
    let no_claim = OidcUser { preferred_username: None, name: None };
    assert_eq!(no_claim.name(), None);
}

#[test]
fn cookie_names_match_the_wire_contract() {
    assert_eq!(rocket_oidc::session_cookie_name(), "oidc_user_session");
    assert_eq!(rocket_oidc::redirect_destination_cookie_name(), "oidc_redirect_destination");
}
