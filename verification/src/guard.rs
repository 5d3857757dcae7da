//! Per-request authentication resolution.
//!
//! The resolver is a total state machine over three request-time facts: is a
//! session cookie present, does it decode, and did the host's local
//! verification of the identity token succeed. It yields the decision and
//! the exact cookie effects the host must apply. It performs no network
//! work itself: token verification is local to the host, which hands its
//! outcome in as a value.

use vstd::prelude::*;
use crate::session::spec_decode;
use crate::session::SessionCookie;

verus! {

/// Identity claims read from a verified identity token: the preferred
/// username, and display names keyed by language tag, where a `None` tag is
/// the name given without a language.
pub struct IdentityClaims {
    pub preferred_username: Option<Vec<u8>>,
    pub name: Option<Vec<(Option<Vec<u8>>, Vec<u8>)>>,
}

/// What verification of a decoded session's identity token said: verified
/// with these claims, or rejected (bad signature, bad issuer or audience,
/// expired, or a nonce that is not the one bound at startup).
pub enum Verification {
    Verified(IdentityClaims),
    Rejected,
}

/// Basic information about an authenticated user.
pub struct OidcUser {
    pub preferred_username: Option<Vec<u8>>,
    pub name: Option<Vec<(Option<Vec<u8>>, Vec<u8>)>>,
}

/// First display name carried without a language tag, if any.
pub open spec fn unlocalized_name(entries: Seq<(Option<Vec<u8>>, Vec<u8>)>) -> Option<Seq<u8>>
    decreases entries.len(),
{
    if entries.len() == 0 {
        None
    } else {
        match entries.first().0 {
            None => Some(entries.first().1@),
            Some(_) => unlocalized_name(entries.drop_first()),
        }
    }
}

impl OidcUser {
    /// The user's display name for the unlocalized case.
    pub open spec fn spec_name(self) -> Option<Seq<u8>> {
        match self.name {
            None => None,
            Some(entries) => unlocalized_name(entries@),
        }
    }

    /// Retrieve the name this user carries without a language tag.
    ///
    /// The provider supplies a mapping of language to full name; this gives
    /// simple access to the name listed under no language, and nothing when
    /// the user has no name claim or only language-tagged names.
    pub fn name(&self) -> (r: Option<Vec<u8>>)
        ensures
            match r {
                Some(v) => self.spec_name() == Some(v@),
                None => self.spec_name() == None::<Seq<u8>>,
            },
    {
        match &self.name {
            None => None,
            Some(entries) => {
                let mut i: usize = 0;
                proof {
                    assert(entries@.skip(0) =~= entries@);
                }
                loop
                    invariant
                        i <= entries@.len(),
                        self.name == Some(*entries),
                        unlocalized_name(entries@) == unlocalized_name(entries@.skip(i as int)),
                    decreases entries@.len() - i,
                {
                    if i >= entries.len() {
                        proof {
                            assert(entries@.skip(i as int) =~= Seq::<(
                                Option<Vec<u8>>,
                                Vec<u8>,
                            )>::empty());
                        }
                        return None;
                    }
                    let entry = &entries[i];
                    proof {
                        assert(entries@.skip(i as int).first() == entries@[i as int]);
                        assert(entries@.skip(i as int).drop_first() =~= entries@.skip(
                            i as int + 1,
                        ));
                    }
                    match &entry.0 {
                        None => {
                            let mut out: Vec<u8> = Vec::new();
                            let mut j: usize = 0;
                            while j < entry.1.len()
                                invariant
                                    j <= entry.1@.len(),
                                    entry == entries@[i as int],
                                    i < entries@.len(),
                                    out@ == entry.1@.take(j as int),
                                decreases entry.1@.len() - j,
                            {
                                out.push(entry.1[j]);
                                proof {
                                    assert(entry.1@.take(j as int).push(entry.1@[j as int])
                                        =~= entry.1@.take(j as int + 1));
                                }
                                j = j + 1;
                            }
                            proof {
                                assert(entry.1@.take(entry.1@.len() as int) =~= entry.1@);
                            }
                            return Some(out);
                        },
                        Some(_) => {
                            i = i + 1;
                        },
                    }
                }
            },
        }
    }
}

/// The decision a resolution ends in.
pub enum Resolution {
    /// The session verified: the request proceeds as this user.
    Authenticated(OidcUser),
    /// The cookie was well-formed but its identity token failed
    /// verification: a user-visible authentication error, distinct from
    /// plain "not signed in".
    AuthError,
    /// No usable session: the caller routes the request toward sign-in.
    Unauthenticated,
    /// No application state is registered for this route: the core steps
    /// aside and the request is handled as if it were not protected.
    PassThrough,
}

/// A resolution decision together with the cookie effects the caller must
/// apply. Nothing else may be mutated on behalf of the resolver.
pub struct ResolutionOutcome {
    pub decision: Resolution,
    /// Delete the session cookie: it was malformed or failed verification.
    pub delete_session_cookie: bool,
    /// Record the current request path as the redirect destination, so a
    /// later successful sign-in returns there.
    pub set_redirect_destination: bool,
}

/// Whether the resolver's inputs fit together: a verification outcome is in
/// hand exactly when there is a cookie that decodes and application state to
/// verify against.
pub open spec fn resolver_inputs_ok(
    cookie: Option<Vec<u8>>,
    have_state: bool,
    verification: Option<Verification>,
) -> bool {
    verification.is_some() <==> (match cookie {
        Some(s) => spec_decode(s@) != None::<(Seq<u8>, Seq<u8>)> && have_state,
        None => false,
    })
}

/// The resolution state machine, as a function of its three inputs.
pub open spec fn spec_resolve(
    cookie: Option<Vec<u8>>,
    have_state: bool,
    verification: Option<Verification>,
) -> ResolutionOutcome {
    match cookie {
        None => (ResolutionOutcome {
            decision: Resolution::Unauthenticated,
            delete_session_cookie: false,
            set_redirect_destination: true,
        }),
        Some(s) => {
            if spec_decode(s@) == None::<(Seq<u8>, Seq<u8>)> {
                ResolutionOutcome {
                    decision: Resolution::Unauthenticated,
                    delete_session_cookie: true,
                    set_redirect_destination: true,
                }
            } else if !have_state {
                ResolutionOutcome {
                    decision: Resolution::PassThrough,
                    delete_session_cookie: false,
                    set_redirect_destination: false,
                }
            } else {
                match verification {
                    Some(Verification::Verified(claims)) => (ResolutionOutcome {
                        decision: Resolution::Authenticated(
                            OidcUser {
                                preferred_username: claims.preferred_username,
                                name: claims.name,
                            },
                        ),
                        delete_session_cookie: false,
                        set_redirect_destination: false,
                    }),
                    _ => (ResolutionOutcome {
                        decision: Resolution::AuthError,
                        delete_session_cookie: true,
                        set_redirect_destination: false,
                    }),
                }
            }
        },
    }
}

/// Decode a session cookie value if one is present and well-formed. The
/// session is returned exactly when `decode` accepts the value.
pub fn check_session(cookie: &Option<Vec<u8>>) -> (r: Option<SessionCookie>)
    ensures
        match r {
            Some(c) => cookie matches Some(s) && spec_decode(s@) == Some(
                (c.access_token@, c.id_token@),
            ),
            None => (match cookie {
                Some(s) => spec_decode(s@) == None::<(Seq<u8>, Seq<u8>)>,
                None => true,
            }),
        },
{
    match cookie {
        None => None,
        Some(s) => {
            let r = SessionCookie::decode(s);
            proof {
                match &r {
                    Some(c) => {
                        crate::session::lemma_decode_encode(c.access_token@, c.id_token@);
                    },
                    None => {
                        match spec_decode(s@) {
                            Some(p) => {
                                crate::session::lemma_spec_decode_sound(s@, p.0, p.1);
                            },
                            None => {},
                        }
                    },
                }
            }
            r
        },
    }
}

/// Resolve authentication for one request. Inputs are the session cookie as
/// presented, whether application state is registered, and the verification
/// outcome the host obtained for the decoded identity token (exactly when
/// one was in reach). Total, deterministic, and free of any effect beyond
/// the two cookie effects named in the outcome.
pub fn resolve(
    cookie: Option<Vec<u8>>,
    have_state: bool,
    verification: Option<Verification>,
) -> (r: ResolutionOutcome)
    requires
        resolver_inputs_ok(cookie, have_state, verification),
    ensures
        r == spec_resolve(cookie, have_state, verification),
{
    let decoded = check_session(&cookie);
    match cookie {
        None => ResolutionOutcome {
            decision: Resolution::Unauthenticated,
            delete_session_cookie: false,
            set_redirect_destination: true,
        },
        Some(_) => {
            match decoded {
                None => ResolutionOutcome {
                    decision: Resolution::Unauthenticated,
                    delete_session_cookie: true,
                    set_redirect_destination: true,
                },
                Some(_) => {
                    if !have_state {
                        ResolutionOutcome {
                            decision: Resolution::PassThrough,
                            delete_session_cookie: false,
                            set_redirect_destination: false,
                        }
                    } else {
                        match verification {
                            Some(Verification::Verified(claims)) => ResolutionOutcome {
                                decision: Resolution::Authenticated(
                                    OidcUser {
                                        preferred_username: claims.preferred_username,
                                        name: claims.name,
                                    },
                                ),
                                delete_session_cookie: false,
                                set_redirect_destination: false,
                            },
                            _ => ResolutionOutcome {
                                decision: Resolution::AuthError,
                                delete_session_cookie: true,
                                set_redirect_destination: false,
                            },
                        }
                    }
                },
            }
        },
    }
}

/// Resolving twice with the same valid, verified session yields the same
/// authenticated identity both times, and the first resolution orders no
/// cookie mutation, so the second request presents the same cookie.
pub proof fn lemma_resolution_idempotent(
    cookie: Option<Vec<u8>>,
    have_state: bool,
    verification: Option<Verification>,
)
    requires
        cookie matches Some(s) && spec_decode(s@) != None::<(Seq<u8>, Seq<u8>)>,
        have_state,
        verification matches Some(Verification::Verified(_)),
    ensures
        !spec_resolve(cookie, have_state, verification).delete_session_cookie,
        !spec_resolve(cookie, have_state, verification).set_redirect_destination,
        spec_resolve(cookie, have_state, verification).decision matches Resolution::Authenticated(
            _,
        ),
        spec_resolve(cookie, have_state, verification) == spec_resolve(
            cookie,
            have_state,
            verification,
        ),
{
}

/// A malformed session cookie always ends in "unauthenticated" with the
/// cookie deleted and the destination recorded - never in an authentication
/// error and never in an identity, whatever else the request carries.
pub proof fn lemma_malformed_cookie_is_unauthenticated(
    s: Vec<u8>,
    have_state: bool,
    verification: Option<Verification>,
)
    requires
        spec_decode(s@) == None::<(Seq<u8>, Seq<u8>)>,
    ensures
        spec_resolve(Some(s), have_state, verification) == (ResolutionOutcome {
            decision: Resolution::Unauthenticated,
            delete_session_cookie: true,
            set_redirect_destination: true,
        }),
{
}

/// A well-formed session whose identity token fails verification (tampered,
/// expired, or carrying the wrong nonce) always ends in an authentication
/// error with the cookie deleted - never in an identity.
pub proof fn lemma_rejected_verification_is_auth_error(s: Vec<u8>, have_state: bool)
    requires
        spec_decode(s@) != None::<(Seq<u8>, Seq<u8>)>,
        have_state,
    ensures
        spec_resolve(Some(s), have_state, Some(Verification::Rejected)) == (ResolutionOutcome {
            decision: Resolution::AuthError,
            delete_session_cookie: true,
            set_redirect_destination: false,
        }),
{
}

} // verus!
