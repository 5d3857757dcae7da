//! Application-wide OIDC state and the authorize URL.
//!
//! One value per running application, created at startup and read-only
//! thereafter: the provider's authorization endpoint, the application's
//! client identifier and callback URI, the CSRF token and nonce drawn at
//! startup, and the authorize URL that binds them all. The URL is built
//! here as a plain authorization-code request, with every variable part
//! percent-encoded and the parameters joined onto any query the endpoint
//! already carries, and a verified query-parameter reader recovers the
//! embedded values exactly.

use vstd::prelude::*;

verus! {

/// Bytes that stand for themselves in a percent-encoded query value.
pub open spec fn is_unreserved(b: u8) -> bool {
    (0x41 <= b && b <= 0x5a) || (0x61 <= b && b <= 0x7a) || (0x30 <= b && b <= 0x39) || b == 0x2d
        || b == 0x2e || b == 0x5f || b == 0x7e
}

/// Hexadecimal digit (uppercase) for a value below 16.
pub open spec fn hex_upper(n: u8) -> u8 {
    if n < 10 {
        (0x30 + n) as u8
    } else {
        (0x37 + n) as u8
    }
}

/// Value of an uppercase hexadecimal digit byte, if it is one.
pub open spec fn hex_upper_val(c: u8) -> Option<u8> {
    if 0x30 <= c && c <= 0x39 {
        Some((c - 0x30) as u8)
    } else if 0x41 <= c && c <= 0x46 {
        Some((c - 0x37) as u8)
    } else {
        None
    }
}

/// Percent-encoding of one byte: unreserved bytes stand for themselves,
/// every other byte becomes `%XY` with uppercase hex digits.
pub open spec fn pe_byte(b: u8) -> Seq<u8> {
    if is_unreserved(b) {
        seq![b]
    } else {
        seq![0x25u8, hex_upper((b / 16) as u8), hex_upper((b % 16) as u8)]
    }
}

/// Percent-encoding of a whole byte string.
pub open spec fn pe(s: Seq<u8>) -> Seq<u8>
    decreases s.len(),
{
    if s.len() == 0 {
        Seq::empty()
    } else {
        pe_byte(s.first()) + pe(s.drop_first())
    }
}

/// Strict percent-decoding: accepts exactly the canonical encodings.
pub open spec fn pd(s: Seq<u8>) -> Option<Seq<u8>>
    decreases s.len(),
{
    if s.len() == 0 {
        Some(Seq::empty())
    } else if s.first() == 0x25 {
        if s.len() < 3 {
            None
        } else {
            match (hex_upper_val(s[1]), hex_upper_val(s[2])) {
                (Some(h1), Some(h2)) => {
                    let v = (h1 * 16 + h2) as u8;
                    if !is_unreserved(v) {
                        match pd(s.skip(3)) {
                            Some(t) => Some(seq![v] + t),
                            None => None,
                        }
                    } else {
                        None
                    }
                },
                _ => None,
            }
        }
    } else if is_unreserved(s.first()) {
        match pd(s.skip(1)) {
            Some(t) => Some(seq![s.first()] + t),
            None => None,
        }
    } else {
        None
    }
}

/// Percent-decoding is the exact inverse of percent-encoding.
pub proof fn lemma_pd_pe(s: Seq<u8>)
    ensures
        pd(pe(s)) == Some(s),
    decreases s.len(),
{
    if s.len() == 0 {
        assert(pe(s) =~= Seq::<u8>::empty());
        assert(s =~= Seq::<u8>::empty());
        assert(pd(pe(s)) == Some(s));
    } else {
        let b = s.first();
        let t = pe(s.drop_first());
        assert(pe(s) == pe_byte(b) + t);
        lemma_pd_pe(s.drop_first());
        assert(seq![b] + s.drop_first() =~= s);
        if is_unreserved(b) {
            assert(pe(s) =~= seq![b] + t);
            assert(pe(s).first() == b);
            assert(pe(s).skip(1) =~= t);
            assert(pd(pe(s)) == Some(s));
        } else {
            let h1 = (b / 16) as u8;
            let h2 = (b % 16) as u8;
            assert(pe(s) =~= seq![0x25u8, hex_upper(h1), hex_upper(h2)] + t);
            assert(pe(s).first() == 0x25);
            assert(pe(s)[1] == hex_upper(h1) && pe(s)[2] == hex_upper(h2));
            assert(hex_upper_val(hex_upper(h1)) == Some(h1));
            assert(hex_upper_val(hex_upper(h2)) == Some(h2));
            assert(h1 * 16 + h2 == b);
            assert(pe(s).len() >= 3);
            assert(pe(s).skip(3) =~= t);
            assert(pd(pe(s)) == Some(s));
        }
    }
}

/// Percent-encoded output never contains a query separator.
pub proof fn lemma_pe_clean(s: Seq<u8>)
    ensures
        forall|k: int| 0 <= k < pe(s).len() ==> pe(s)[k] != 0x26,
    decreases s.len(),
{
    if s.len() == 0 {
    } else {
        lemma_pe_clean(s.drop_first());
        let b = s.first();
        assert(pe(s) == pe_byte(b) + pe(s.drop_first()));
        assert forall|k: int| 0 <= k < pe(s).len() implies pe(s)[k] != 0x26 by {
            if k < pe_byte(b).len() {
                assert(pe(s)[k] == pe_byte(b)[k]);
                if is_unreserved(b) {
                    assert(pe_byte(b)[k] == b);
                    assert(!is_unreserved(0x26u8));
                } else {
                    assert(hex_upper((b / 16) as u8) != 0x26 && hex_upper((b % 16) as u8)
                        != 0x26);
                }
            } else {
                assert(pe(s)[k] == pe(s.drop_first())[k - pe_byte(b).len()]);
            }
        }
    }
}

/// The query-pair prefix of `q`: everything before the first `&`.
pub open spec fn take_until_amp(q: Seq<u8>) -> Seq<u8>
    decreases q.len(),
{
    if q.len() == 0 {
        Seq::empty()
    } else if q.first() == 0x26 {
        Seq::empty()
    } else {
        seq![q.first()] + take_until_amp(q.drop_first())
    }
}

/// If the first `m` bytes of `q` are free of `&` and byte `m` (if any) is
/// `&`, then the pair prefix is exactly those `m` bytes.
pub proof fn lemma_take_until_amp_exact(q: Seq<u8>, m: int)
    requires
        0 <= m <= q.len(),
        forall|k: int| 0 <= k < m ==> q[k] != 0x26,
        m == q.len() || q[m] == 0x26,
    ensures
        take_until_amp(q) == q.take(m),
    decreases q.len(),
{
    if m == 0 {
        if q.len() == 0 {
            assert(take_until_amp(q) =~= q.take(0));
        } else {
            assert(q.first() == 0x26);
            assert(take_until_amp(q) =~= q.take(0));
        }
    } else {
        assert(q.first() != 0x26);
        lemma_take_until_amp_exact(q.drop_first(), m - 1);
        assert(seq![q.first()] + q.drop_first().take(m - 1) =~= q.take(m));
    }
}

/// Look a named parameter up in a query string: the raw (still
/// percent-encoded) value of the first pair `name=value`.
pub open spec fn spec_find_param(q: Seq<u8>, name: Seq<u8>) -> Option<Seq<u8>>
    decreases q.len(),
{
    let pair = take_until_amp(q);
    if pair.len() >= name.len() + 1 && pair.take(name.len() as int) == name && pair[name.len() as int]
        == 0x3d {
        Some(pair.skip(name.len() as int + 1))
    } else if q.len() > pair.len() {
        spec_find_param(q.skip(pair.len() as int + 1), name)
    } else {
        None
    }
}

/// Everything after the first `?`, if there is one.
pub open spec fn after_qmark(u: Seq<u8>) -> Option<Seq<u8>>
    decreases u.len(),
{
    if u.len() == 0 {
        None
    } else if u.first() == 0x3f {
        Some(u.drop_first())
    } else {
        after_qmark(u.drop_first())
    }
}

/// Read a named query parameter out of a URL and percent-decode it.
pub open spec fn spec_query_param(url: Seq<u8>, name: Seq<u8>) -> Option<Seq<u8>> {
    match after_qmark(url) {
        Some(q) => match spec_find_param(q, name) {
            Some(raw) => pd(raw),
            None => None,
        },
        None => None,
    }
}

/// The bytes of `response_type=code`.
pub open spec fn response_type_pair() -> Seq<u8> {
    seq![
        0x72u8, 0x65u8, 0x73u8, 0x70u8, 0x6fu8, 0x6eu8, 0x73u8, 0x65u8, 0x5fu8, 0x74u8, 0x79u8,
        0x70u8, 0x65u8, 0x3du8, 0x63u8, 0x6fu8, 0x64u8, 0x65u8,
    ]
}

/// The bytes of `client_id`.
pub open spec fn client_id_name() -> Seq<u8> {
    seq![0x63u8, 0x6cu8, 0x69u8, 0x65u8, 0x6eu8, 0x74u8, 0x5fu8, 0x69u8, 0x64u8]
}

/// The bytes of `state`.
pub open spec fn state_name() -> Seq<u8> {
    seq![0x73u8, 0x74u8, 0x61u8, 0x74u8, 0x65u8]
}

/// The bytes of `nonce`.
pub open spec fn nonce_name() -> Seq<u8> {
    seq![0x6eu8, 0x6fu8, 0x6eu8, 0x63u8, 0x65u8]
}

/// The bytes of `redirect_uri`.
pub open spec fn redirect_uri_name() -> Seq<u8> {
    seq![0x72u8, 0x65u8, 0x64u8, 0x69u8, 0x72u8, 0x65u8, 0x63u8, 0x74u8, 0x5fu8, 0x75u8, 0x72u8,
        0x69u8]
}

/// The bytes of `scope=openid`.
pub open spec fn scope_pair() -> Seq<u8> {
    seq![0x73u8, 0x63u8, 0x6fu8, 0x70u8, 0x65u8, 0x3du8, 0x6fu8, 0x70u8, 0x65u8, 0x6eu8, 0x69u8,
        0x64u8]
}

/// What joins the authorization parameters onto the endpoint: a `?` when
/// the endpoint has no query of its own, an `&` when it already carries a
/// non-empty one, and nothing when it ends right at its `?`.
pub open spec fn query_join(endpoint: Seq<u8>) -> Seq<u8> {
    match after_qmark(endpoint) {
        None => seq![0x3fu8],
        Some(q) => if q.len() == 0 {
            Seq::empty()
        } else {
            seq![0x26u8]
        },
    }
}

/// The query pairs the authorization request appends: response type,
/// client, state, nonce, callback URI, scope.
pub open spec fn auth_query(
    client_id: Seq<u8>,
    redirect_uri: Seq<u8>,
    csrf: Seq<u8>,
    nonce: Seq<u8>,
) -> Seq<u8> {
    response_type_pair() + seq![0x26u8] + client_id_name() + seq![0x3du8] + pe(client_id)
        + seq![0x26u8] + state_name() + seq![0x3du8] + pe(csrf) + seq![0x26u8] + nonce_name()
        + seq![0x3du8] + pe(nonce) + seq![0x26u8] + redirect_uri_name() + seq![0x3du8] + pe(
        redirect_uri,
    ) + seq![0x26u8] + scope_pair()
}

/// The authorization-code request URL for the given endpoint, client,
/// callback URI, CSRF token, and nonce. A query the endpoint already
/// carries is kept, and the parameters are appended to it.
pub open spec fn spec_authorize_url(
    endpoint: Seq<u8>,
    client_id: Seq<u8>,
    redirect_uri: Seq<u8>,
    csrf: Seq<u8>,
    nonce: Seq<u8>,
) -> Seq<u8> {
    endpoint + query_join(endpoint) + auth_query(client_id, redirect_uri, csrf, nonce)
}

/// Percent-encoding a concatenation encodes the parts in order.
pub proof fn lemma_pe_append(a: Seq<u8>, b: Seq<u8>)
    ensures
        pe(a + b) == pe(a) + pe(b),
    decreases a.len(),
{
    if a.len() == 0 {
        assert(a + b =~= b);
        assert(pe(a) + pe(b) =~= pe(b));
    } else {
        assert((a + b).first() == a.first());
        assert((a + b).drop_first() =~= a.drop_first() + b);
        lemma_pe_append(a.drop_first(), b);
        assert(pe(a + b) =~= pe(a) + pe(b));
    }
}

/// Percent-encoding a string extended by one byte appends that byte's form.
pub proof fn lemma_pe_push(a: Seq<u8>, b: u8)
    ensures
        pe(a.push(b)) == pe(a) + pe_byte(b),
{
    lemma_pe_append(a, seq![b]);
    assert(a.push(b) =~= a + seq![b]);
    assert(seq![b].drop_first() =~= Seq::<u8>::empty());
    assert(seq![b].first() == b);
    assert(pe(seq![b]) == pe_byte(b) + pe(Seq::<u8>::empty()));
    assert(pe(seq![b]) =~= pe_byte(b));
}

fn hex_upper_ex(n: u8) -> (r: u8)
    requires
        n < 16,
    ensures
        r == hex_upper(n),
{
    if n < 10 {
        0x30 + n
    } else {
        0x37 + n
    }
}

fn is_unreserved_ex(b: u8) -> (r: bool)
    ensures
        r == is_unreserved(b),
{
    (0x41 <= b && b <= 0x5a) || (0x61 <= b && b <= 0x7a) || (0x30 <= b && b <= 0x39) || b == 0x2d
        || b == 0x2e || b == 0x5f || b == 0x7e
}

fn push_all(out: &mut Vec<u8>, s: &Vec<u8>)
    ensures
        final(out)@ == old(out)@ + s@,
{
    proof {
        assert(s@.take(0) =~= Seq::<u8>::empty());
        assert(out@ =~= old(out)@ + s@.take(0));
    }
    let mut i: usize = 0;
    while i < s.len()
        invariant
            i <= s@.len(),
            out@ == old(out)@ + s@.take(i as int),
        decreases s@.len() - i,
    {
        out.push(s[i]);
        proof {
            assert(s@.take(i as int).push(s@[i as int]) =~= s@.take(i as int + 1));
        }
        i = i + 1;
    }
    proof {
        assert(s@.take(s@.len() as int) =~= s@);
    }
}

fn push_pe_byte(out: &mut Vec<u8>, b: u8)
    ensures
        final(out)@ == old(out)@ + pe_byte(b),
{
    if is_unreserved_ex(b) {
        out.push(b);
        assert(out@ =~= old(out)@ + pe_byte(b));
    } else {
        out.push(0x25);
        out.push(hex_upper_ex(b / 16));
        out.push(hex_upper_ex(b % 16));
        assert(out@ =~= old(out)@ + pe_byte(b));
    }
}

fn push_pe_all(out: &mut Vec<u8>, s: &Vec<u8>)
    ensures
        final(out)@ == old(out)@ + pe(s@),
{
    proof {
        assert(s@.take(0) =~= Seq::<u8>::empty());
        assert(out@ =~= old(out)@ + pe(s@.take(0)));
    }
    let mut i: usize = 0;
    while i < s.len()
        invariant
            i <= s@.len(),
            out@ == old(out)@ + pe(s@.take(i as int)),
        decreases s@.len() - i,
    {
        push_pe_byte(out, s[i]);
        proof {
            lemma_pe_push(s@.take(i as int), s@[i as int]);
            assert(s@.take(i as int).push(s@[i as int]) =~= s@.take(i as int + 1));
        }
        i = i + 1;
    }
    proof {
        assert(s@.take(s@.len() as int) =~= s@);
    }
}

fn push_query_join(out: &mut Vec<u8>, endpoint: &Vec<u8>)
    ensures
        final(out)@ == old(out)@ + query_join(endpoint@),
{
    proof {
        assert(endpoint@.skip(0) =~= endpoint@);
    }
    let mut i: usize = 0;
    while i < endpoint.len()
        invariant
            i <= endpoint@.len(),
            after_qmark(endpoint@) == after_qmark(endpoint@.skip(i as int)),
            out@ == old(out)@,
        decreases endpoint@.len() - i,
    {
        proof {
            assert(endpoint@.skip(i as int).first() == endpoint@[i as int]);
            assert(endpoint@.skip(i as int).drop_first() =~= endpoint@.skip(i as int + 1));
        }
        if endpoint[i] == 0x3f {
            proof {
                assert(after_qmark(endpoint@) == Some(endpoint@.skip(i as int + 1)));
            }
            if i + 1 == endpoint.len() {
                proof {
                    assert(endpoint@.skip(i as int + 1) =~= Seq::<u8>::empty());
                    assert(out@ =~= old(out)@ + query_join(endpoint@));
                }
            } else {
                out.push(0x26);
                proof {
                    assert(endpoint@.skip(i as int + 1).len() > 0);
                    assert(out@ =~= old(out)@ + query_join(endpoint@));
                }
            }
            return ;
        }
        i = i + 1;
    }
    proof {
        assert(endpoint@.skip(i as int) =~= Seq::<u8>::empty());
    }
    out.push(0x3f);
    proof {
        assert(out@ =~= old(out)@ + query_join(endpoint@));
    }
}

fn push_static_head(out: &mut Vec<u8>)
    ensures
        final(out)@ == old(out)@ + response_type_pair() + seq![0x26u8] + client_id_name()
            + seq![0x3du8],
{
    out.push(0x72);
    out.push(0x65);
    out.push(0x73);
    out.push(0x70);
    out.push(0x6f);
    out.push(0x6e);
    out.push(0x73);
    out.push(0x65);
    out.push(0x5f);
    out.push(0x74);
    out.push(0x79);
    out.push(0x70);
    out.push(0x65);
    out.push(0x3d);
    out.push(0x63);
    out.push(0x6f);
    out.push(0x64);
    out.push(0x65);
    out.push(0x26);
    out.push(0x63);
    out.push(0x6c);
    out.push(0x69);
    out.push(0x65);
    out.push(0x6e);
    out.push(0x74);
    out.push(0x5f);
    out.push(0x69);
    out.push(0x64);
    out.push(0x3d);
    assert(out@ =~= old(out)@ + response_type_pair() + seq![0x26u8] + client_id_name()
        + seq![0x3du8]);
}

fn push_state_key(out: &mut Vec<u8>)
    ensures
        final(out)@ == old(out)@ + seq![0x26u8] + state_name() + seq![0x3du8],
{
    out.push(0x26);
    out.push(0x73);
    out.push(0x74);
    out.push(0x61);
    out.push(0x74);
    out.push(0x65);
    out.push(0x3d);
    assert(out@ =~= old(out)@ + seq![0x26u8] + state_name() + seq![0x3du8]);
}

fn push_nonce_key(out: &mut Vec<u8>)
    ensures
        final(out)@ == old(out)@ + seq![0x26u8] + nonce_name() + seq![0x3du8],
{
    out.push(0x26);
    out.push(0x6e);
    out.push(0x6f);
    out.push(0x6e);
    out.push(0x63);
    out.push(0x65);
    out.push(0x3d);
    assert(out@ =~= old(out)@ + seq![0x26u8] + nonce_name() + seq![0x3du8]);
}

fn push_redirect_key(out: &mut Vec<u8>)
    ensures
        final(out)@ == old(out)@ + seq![0x26u8] + redirect_uri_name() + seq![0x3du8],
{
    out.push(0x26);
    out.push(0x72);
    out.push(0x65);
    out.push(0x64);
    out.push(0x69);
    out.push(0x72);
    out.push(0x65);
    out.push(0x63);
    out.push(0x74);
    out.push(0x5f);
    out.push(0x75);
    out.push(0x72);
    out.push(0x69);
    out.push(0x3d);
    assert(out@ =~= old(out)@ + seq![0x26u8] + redirect_uri_name() + seq![0x3du8]);
}

fn push_scope_tail(out: &mut Vec<u8>)
    ensures
        final(out)@ == old(out)@ + seq![0x26u8] + scope_pair(),
{
    out.push(0x26);
    out.push(0x73);
    out.push(0x63);
    out.push(0x6f);
    out.push(0x70);
    out.push(0x65);
    out.push(0x3d);
    out.push(0x6f);
    out.push(0x70);
    out.push(0x65);
    out.push(0x6e);
    out.push(0x69);
    out.push(0x64);
    assert(out@ =~= old(out)@ + seq![0x26u8] + scope_pair());
}

/// Build the authorize URL for the given endpoint and parameters.
pub fn build_authorize_url(
    endpoint: &Vec<u8>,
    client_id: &Vec<u8>,
    redirect_uri: &Vec<u8>,
    csrf: &Vec<u8>,
    nonce: &Vec<u8>,
) -> (r: Vec<u8>)
    ensures
        r@ == spec_authorize_url(endpoint@, client_id@, redirect_uri@, csrf@, nonce@),
{
    let mut out: Vec<u8> = Vec::new();
    push_all(&mut out, endpoint);
    push_query_join(&mut out, endpoint);
    push_static_head(&mut out);
    push_pe_all(&mut out, client_id);
    push_state_key(&mut out);
    push_pe_all(&mut out, csrf);
    push_nonce_key(&mut out);
    push_pe_all(&mut out, nonce);
    push_redirect_key(&mut out);
    push_pe_all(&mut out, redirect_uri);
    push_scope_tail(&mut out);
    proof {
        assert(out@ =~= spec_authorize_url(endpoint@, client_id@, redirect_uri@, csrf@, nonce@));
    }
    out
}

/// State for an application utilizing OpenID Connect: created once at
/// startup and read-only for the rest of the process lifetime.
pub struct OidcApplication {
    /// The provider's authorization endpoint, from discovery.
    pub auth_endpoint: Vec<u8>,
    /// The client identifier issued to this application by the provider.
    pub client_id: Vec<u8>,
    /// The callback URI registered with the provider.
    pub redirect_uri: Vec<u8>,
    /// The URL the browser is sent to in order to start authentication.
    pub authorize_url: Vec<u8>,
    /// Random token bound into `authorize_url` against request forgery.
    pub csrf_state: Vec<u8>,
    /// Random value bound into `authorize_url`; an identity token obtained
    /// on callback is valid only if it carries this nonce.
    pub nonce: Vec<u8>,
}

impl OidcApplication {
    /// The authorize URL is exactly the one formed from the other fields.
    pub open spec fn wf(self) -> bool {
        self.authorize_url@ == spec_authorize_url(
            self.auth_endpoint@,
            self.client_id@,
            self.redirect_uri@,
            self.csrf_state@,
            self.nonce@,
        )
    }

    /// Create the application state from the discovered authorization
    /// endpoint, the client identifier, the registered callback URI, and
    /// the CSRF token and nonce drawn at startup. The authorize URL, the
    /// CSRF token and the nonce are fixed together here and never
    /// regenerated independently. Construction succeeds for every
    /// endpoint: one that already carries a query keeps it, and the
    /// authorization parameters are appended to it.
    pub fn new(
        auth_endpoint: Vec<u8>,
        client_id: Vec<u8>,
        redirect_uri: Vec<u8>,
        csrf_state: Vec<u8>,
        nonce: Vec<u8>,
    ) -> (app: OidcApplication)
        ensures
            app.wf(),
            app.auth_endpoint@ == auth_endpoint@,
            app.client_id@ == client_id@,
            app.redirect_uri@ == redirect_uri@,
            app.csrf_state@ == csrf_state@,
            app.nonce@ == nonce@,
    {
        let authorize_url = build_authorize_url(
            &auth_endpoint,
            &client_id,
            &redirect_uri,
            &csrf_state,
            &nonce,
        );
        OidcApplication { auth_endpoint, client_id, redirect_uri, authorize_url, csrf_state, nonce }
    }
}

fn hex_upper_val_ex(c: u8) -> (r: Option<u8>)
    ensures
        r == hex_upper_val(c),
{
    if 0x30 <= c && c <= 0x39 {
        Some(c - 0x30)
    } else if 0x41 <= c && c <= 0x46 {
        Some(c - 0x37)
    } else {
        None
    }
}

fn percent_decode(s: &Vec<u8>, from: usize, to: usize) -> (r: Option<Vec<u8>>)
    requires
        from <= to <= s@.len(),
    ensures
        match r {
            Some(v) => pd(s@.subrange(from as int, to as int)) == Some(v@),
            None => pd(s@.subrange(from as int, to as int)) == None::<Seq<u8>>,
        },
{
    let mut i: usize = from;
    let mut acc: Vec<u8> = Vec::new();
    proof {
        match pd(s@.subrange(from as int, to as int)) {
            Some(t) => {
                assert(acc@ + t =~= t);
            },
            None => {},
        }
    }
    loop
        invariant
            from <= i <= to <= s@.len(),
            pd(s@.subrange(from as int, to as int)) == match pd(
                s@.subrange(i as int, to as int),
            ) {
                Some(t) => Some(acc@ + t),
                None => None::<Seq<u8>>,
            },
        decreases to - i,
    {
        let ghost cur = s@.subrange(i as int, to as int);
        if i >= to {
            proof {
                assert(cur =~= Seq::<u8>::empty());
                assert(acc@ + Seq::<u8>::empty() =~= acc@);
            }
            return Some(acc);
        }
        let b = s[i];
        proof {
            assert(cur.first() == b);
        }
        if b == 0x25 {
            if to - i < 3 {
                proof {
                    assert(cur.len() < 3);
                }
                return None;
            }
            proof {
                assert(cur[1] == s@[i + 1]);
                assert(cur[2] == s@[i + 2]);
            }
            let h1o = hex_upper_val_ex(s[i + 1]);
            let h2o = hex_upper_val_ex(s[i + 2]);
            match (h1o, h2o) {
                (Some(h1), Some(h2)) => {
                    let v: u8 = h1 * 16 + h2;
                    if !is_unreserved_ex(v) {
                        let ghost old_acc = acc@;
                        acc.push(v);
                        proof {
                            assert(cur.skip(3) =~= s@.subrange(i as int + 3, to as int));
                            match pd(s@.subrange(i as int + 3, to as int)) {
                                Some(t) => {
                                    assert(old_acc + (seq![v] + t) =~= acc@ + t);
                                },
                                None => {},
                            }
                        }
                        i = i + 3;
                    } else {
                        return None;
                    }
                },
                _ => {
                    return None;
                },
            }
        } else if is_unreserved_ex(b) {
            let ghost old_acc = acc@;
            acc.push(b);
            proof {
                assert(cur.skip(1) =~= s@.subrange(i as int + 1, to as int));
                match pd(s@.subrange(i as int + 1, to as int)) {
                    Some(t) => {
                        assert(old_acc + (seq![b] + t) =~= acc@ + t);
                    },
                    None => {},
                }
            }
            i = i + 1;
        } else {
            return None;
        }
    }
}

fn find_param_from(url: &Vec<u8>, qstart: usize, name: &Vec<u8>) -> (r: Option<Vec<u8>>)
    requires
        qstart <= url@.len(),
    ensures
        ({
            let res = match spec_find_param(url@.skip(qstart as int), name@) {
                Some(raw) => pd(raw),
                None => None::<Seq<u8>>,
            };
            match r {
                Some(v) => res == Some(v@),
                None => res == None::<Seq<u8>>,
            }
        }),
{
    let mut p: usize = qstart;
    loop
        invariant
            qstart <= p <= url@.len(),
            spec_find_param(url@.skip(qstart as int), name@) == spec_find_param(
                url@.skip(p as int),
                name@,
            ),
        decreases url@.len() - p,
    {
        let ghost q = url@.skip(p as int);
        // scan this pair's extent
        let mut e: usize = p;
        while e < url.len() && url[e] != 0x26
            invariant
                p <= e <= url@.len(),
                forall|k: int| p <= k < e ==> url@[k] != 0x26,
            decreases url@.len() - e,
        {
            e = e + 1;
        }
        proof {
            assert forall|k: int| 0 <= k < e - p implies q[k] != 0x26 by {
                assert(q[k] == url@[p + k]);
            }
            if e < url@.len() {
                assert(q[e - p] == url@[e as int]);
                assert(q[e - p] == 0x26);
            }
            lemma_take_until_amp_exact(q, e - p);
            assert(take_until_amp(q) == q.take(e - p));
            assert(q.take(e - p) =~= url@.subrange(p as int, e as int));
        }
        let ghost pair = take_until_amp(q);
        if e - p > name.len() && match_prefix(url, p, name) && url[p + name.len()] == 0x3d {
            proof {
                assert(pair.len() == e - p >= name@.len() + 1);
                assert(pair.take(name@.len() as int) =~= url@.subrange(
                    p as int,
                    p as int + name@.len(),
                ));
                assert(pair[name@.len() as int] == url@[p + name@.len()]);
                assert(pair.skip(name@.len() as int + 1) =~= url@.subrange(
                    p as int + name@.len() + 1,
                    e as int,
                ));
            }
            let vstart = p + name.len() + 1;
            return percent_decode(url, vstart, e);
        } else {
            proof {
                // the pair does not carry `name=`: either it is too short,
                // or its head differs from the name, or `=` is missing
                if pair.len() >= name@.len() + 1 {
                    assert(pair.take(name@.len() as int) =~= url@.subrange(
                        p as int,
                        p as int + name@.len(),
                    ));
                    assert(pair[name@.len() as int] == url@[p + name@.len()]);
                }
            }
            if e < url.len() {
                proof {
                    assert(q.len() > pair.len());
                    assert(q.skip(pair.len() as int + 1) =~= url@.skip(e as int + 1));
                }
                p = e + 1;
            } else {
                proof {
                    assert(q.len() == pair.len());
                }
                return None;
            }
        }
    }
}

fn match_prefix(s: &Vec<u8>, at: usize, pat: &Vec<u8>) -> (r: bool)
    requires
        at <= s@.len(),
    ensures
        r <==> (at + pat@.len() <= s@.len() && s@.subrange(
            at as int,
            at as int + pat@.len() as int,
        ) == pat@),
{
    if s.len() - at < pat.len() {
        return false;
    }
    let mut j: usize = 0;
    while j < pat.len()
        invariant
            at + pat@.len() <= s@.len(),
            j <= pat@.len(),
            forall|k: int| 0 <= k < j ==> s@[at + k] == pat@[k],
        decreases pat@.len() - j,
    {
        proof {
            assert(at + j < s.len());
        }
        if s[at + j] != pat[j] {
            proof {
                let sub = s@.subrange(at as int, at as int + pat@.len() as int);
                if sub == pat@ {
                    assert(sub[j as int] == s@[at + j]);
                    assert(false);
                }
            }
            return false;
        }
        j = j + 1;
    }
    proof {
        assert(s@.subrange(at as int, at as int + pat@.len() as int) =~= pat@);
    }
    true
}

/// Read a named query parameter from a URL: the percent-decoded value of
/// the first `name=value` pair after the first `?`.
pub fn query_param(url: &Vec<u8>, name: &Vec<u8>) -> (r: Option<Vec<u8>>)
    ensures
        ({
            let res = spec_query_param(url@, name@);
            match r {
                Some(v) => res == Some(v@),
                None => res == None::<Seq<u8>>,
            }
        }),
{
    let mut i: usize = 0;
    proof {
        assert(url@.skip(0) =~= url@);
    }
    while i < url.len()
        invariant
            i <= url@.len(),
            after_qmark(url@) == after_qmark(url@.skip(i as int)),
        decreases url@.len() - i,
    {
        proof {
            assert(url@.skip(i as int).first() == url@[i as int]);
            assert(url@.skip(i as int).drop_first() =~= url@.skip(i as int + 1));
        }
        if url[i] == 0x3f {
            return find_param_from(url, i + 1, name);
        }
        i = i + 1;
    }
    proof {
        assert(url@.skip(i as int) =~= Seq::<u8>::empty());
    }
    None
}

/// A query whose head pair is free of `&` and does not carry the name is
/// skipped by the parameter lookup.
proof fn lemma_find_param_miss(a: Seq<u8>, rest: Seq<u8>, name: Seq<u8>)
    requires
        forall|k: int| 0 <= k < a.len() ==> a[k] != 0x26,
        !(a.len() >= name.len() + 1 && a.take(name.len() as int) == name && a[name.len() as int]
            == 0x3d),
    ensures
        spec_find_param(a + seq![0x26u8] + rest, name) == spec_find_param(rest, name),
{
    let q = a + seq![0x26u8] + rest;
    assert forall|k: int| 0 <= k < a.len() implies q[k] != 0x26 by {
        assert(q[k] == a[k]);
    }
    assert(q[a.len() as int] == 0x26);
    lemma_take_until_amp_exact(q, a.len() as int);
    assert(q.take(a.len() as int) =~= a);
    assert(take_until_amp(q) == a);
    assert(q.len() > a.len());
    assert(q.skip(a.len() as int + 1) =~= rest);
}

/// The parameter lookup finds the pair that carries the name and yields its
/// raw value.
proof fn lemma_find_param_hit(value: Seq<u8>, rest: Seq<u8>, name: Seq<u8>)
    requires
        forall|k: int| 0 <= k < name.len() ==> name[k] != 0x26,
        forall|k: int| 0 <= k < value.len() ==> value[k] != 0x26,
    ensures
        spec_find_param(name + seq![0x3du8] + value + seq![0x26u8] + rest, name) == Some(value),
{
    let a = name + seq![0x3du8] + value;
    let q = a + seq![0x26u8] + rest;
    assert forall|k: int| 0 <= k < a.len() implies a[k] != 0x26 by {
        if k < name.len() {
            assert(a[k] == name[k]);
        } else if k == name.len() {
            assert(a[k] == 0x3d);
        } else {
            assert(a[k] == value[k - name.len() - 1]);
        }
    }
    assert forall|k: int| 0 <= k < a.len() implies q[k] != 0x26 by {
        assert(q[k] == a[k]);
    }
    assert(q[a.len() as int] == 0x26);
    lemma_take_until_amp_exact(q, a.len() as int);
    assert(q.take(a.len() as int) =~= a);
    assert(take_until_amp(q) == a);
    assert(a.len() >= name.len() + 1);
    assert(a.take(name.len() as int) =~= name);
    assert(a[name.len() as int] == 0x3d);
    assert(a.skip(name.len() as int + 1) =~= value);
    assert(q =~= name + seq![0x3du8] + value + seq![0x26u8] + rest);
}

/// A `?` appended after a head with no `?` of its own starts the query
/// exactly there.
proof fn lemma_after_qmark_concat(a: Seq<u8>, rest: Seq<u8>)
    requires
        after_qmark(a) == None::<Seq<u8>>,
    ensures
        after_qmark(a + seq![0x3fu8] + rest) == Some(rest),
    decreases a.len(),
{
    let u = a + seq![0x3fu8] + rest;
    if a.len() == 0 {
        assert(u.first() == 0x3f);
        assert(u.drop_first() =~= rest);
    } else {
        assert(a.first() != 0x3f);
        assert(after_qmark(a.drop_first()) == None::<Seq<u8>>);
        assert(u.first() == a[0]);
        assert(u.drop_first() =~= a.drop_first() + seq![0x3fu8] + rest);
        lemma_after_qmark_concat(a.drop_first(), rest);
    }
}

/// Whatever follows the first `?` is extended along with the string.
proof fn lemma_after_qmark_extend(e: Seq<u8>, eq: Seq<u8>, x: Seq<u8>)
    requires
        after_qmark(e) == Some(eq),
    ensures
        after_qmark(e + x) == Some(eq + x),
    decreases e.len(),
{
    assert(e.len() > 0);
    let u = e + x;
    assert(u.first() == e.first());
    if e.first() == 0x3f {
        assert(eq == e.drop_first());
        assert(u.drop_first() =~= e.drop_first() + x);
        assert(after_qmark(u) == Some(eq + x));
    } else {
        assert(after_qmark(e.drop_first()) == Some(eq));
        assert(u.drop_first() =~= e.drop_first() + x);
        lemma_after_qmark_extend(e.drop_first(), eq, x);
    }
}

/// The pair prefix copies the query up to its first `&`.
proof fn lemma_take_until_amp_spec(q: Seq<u8>)
    ensures
        take_until_amp(q).len() <= q.len(),
        forall|k: int| 0 <= k < take_until_amp(q).len() ==> #[trigger] take_until_amp(q)[k]
            == q[k],
        forall|k: int| 0 <= k < take_until_amp(q).len() ==> #[trigger] q[k] != 0x26,
        take_until_amp(q).len() < q.len() ==> q[take_until_amp(q).len() as int] == 0x26,
    decreases q.len(),
{
    if q.len() == 0 {
    } else if q.first() == 0x26 {
    } else {
        lemma_take_until_amp_spec(q.drop_first());
        let t = take_until_amp(q);
        assert(t == seq![q.first()] + take_until_amp(q.drop_first()));
        assert forall|k: int| 0 <= k < t.len() implies #[trigger] t[k] == q[k] by {
            if k == 0 {
                assert(t[0] == q.first());
            } else {
                assert(t[k] == take_until_amp(q.drop_first())[k - 1]);
                assert(q.drop_first()[k - 1] == q[k]);
            }
        }
        assert forall|k: int| 0 <= k < t.len() implies #[trigger] q[k] != 0x26 by {
            if k == 0 {
                assert(q[0] == q.first());
            } else {
                assert(q.drop_first()[k - 1] == q[k]);
                assert(take_until_amp(q.drop_first()).len() == t.len() - 1);
            }
        }
        if t.len() < q.len() {
            assert(q[t.len() as int] == q.drop_first()[t.len() - 1]);
        }
    }
}

/// Whether the lookup would find the named parameter within `q` itself.
pub open spec fn query_names_param(q: Seq<u8>, name: Seq<u8>) -> bool
    decreases q.len(),
{
    let pair = take_until_amp(q);
    if pair.len() >= name.len() + 1 && pair.take(name.len() as int) == name && pair[name.len() as int]
        == 0x3d {
        true
    } else if q.len() > pair.len() {
        query_names_param(q.skip(pair.len() as int + 1), name)
    } else {
        false
    }
}

/// A query that does not itself name the parameter is passed over by the
/// lookup when further pairs follow it.
proof fn lemma_find_param_passes(eq: Seq<u8>, q: Seq<u8>, name: Seq<u8>)
    requires
        !query_names_param(eq, name),
    ensures
        spec_find_param(eq + seq![0x26u8] + q, name) == spec_find_param(q, name),
    decreases eq.len(),
{
    let full = eq + seq![0x26u8] + q;
    lemma_take_until_amp_spec(eq);
    let pair = take_until_amp(eq);
    let m = pair.len() as int;
    assert forall|k: int| 0 <= k < m implies full[k] != 0x26 by {
        assert(eq[k] != 0x26);
        assert(full[k] == eq[k]);
    }
    if m < eq.len() {
        assert(full[m] == eq[m]);
        assert(eq[m] == 0x26);
    } else {
        assert(full[m] == 0x26);
    }
    lemma_take_until_amp_exact(full, m);
    assert(full.take(m) =~= pair);
    assert(take_until_amp(full) == pair);
    assert(full.len() > pair.len());
    if m < eq.len() {
        assert(full.skip(m + 1) =~= eq.skip(m + 1) + seq![0x26u8] + q);
        assert(!query_names_param(eq.skip(m + 1), name));
        lemma_find_param_passes(eq.skip(m + 1), q, name);
        assert(spec_find_param(full, name) == spec_find_param(q, name));
    } else {
        assert(full.skip(m + 1) =~= q);
        assert(spec_find_param(full, name) == spec_find_param(q, name));
    }
}

/// Looking `state` and `nonce` up in the appended authorization query
/// yields the percent-encoded CSRF token and nonce.
proof fn lemma_find_in_auth_query(
    client_id: Seq<u8>,
    redirect_uri: Seq<u8>,
    csrf: Seq<u8>,
    nonce: Seq<u8>,
)
    ensures
        spec_find_param(auth_query(client_id, redirect_uri, csrf, nonce), state_name()) == Some(
            pe(csrf),
        ),
        spec_find_param(auth_query(client_id, redirect_uri, csrf, nonce), nonce_name()) == Some(
            pe(nonce),
        ),
{
    let a_rt = response_type_pair();
    let a_ci = client_id_name() + seq![0x3du8] + pe(client_id);
    let a_st = state_name() + seq![0x3du8] + pe(csrf);
    let a_no = nonce_name() + seq![0x3du8] + pe(nonce);
    let a_ru = redirect_uri_name() + seq![0x3du8] + pe(redirect_uri);
    let r4 = a_ru + seq![0x26u8] + scope_pair();
    let r3 = a_no + seq![0x26u8] + r4;
    let r2 = a_st + seq![0x26u8] + r3;
    let r1 = a_ci + seq![0x26u8] + r2;
    let q = a_rt + seq![0x26u8] + r1;
    assert(auth_query(client_id, redirect_uri, csrf, nonce) =~= q);

    lemma_pe_clean(client_id);
    lemma_pe_clean(csrf);
    lemma_pe_clean(nonce);

    // the fixed pair heads are free of `&`, and their first bytes differ
    // from both names
    assert forall|k: int| 0 <= k < a_rt.len() implies a_rt[k] != 0x26 by {
        if k == 13 {
            assert(a_rt[k] == 0x3d);
        } else {
            assert(a_rt[k] != 0x26);
        }
    }
    assert forall|k: int| 0 <= k < a_ci.len() implies a_ci[k] != 0x26 by {
        if k < client_id_name().len() {
            assert(a_ci[k] == client_id_name()[k]);
        } else if k == client_id_name().len() {
            assert(a_ci[k] == 0x3d);
        } else {
            assert(a_ci[k] == pe(client_id)[k - client_id_name().len() - 1]);
        }
    }
    assert forall|k: int| 0 <= k < a_st.len() implies a_st[k] != 0x26 by {
        if k < state_name().len() {
            assert(a_st[k] == state_name()[k]);
        } else if k == state_name().len() {
            assert(a_st[k] == 0x3d);
        } else {
            assert(a_st[k] == pe(csrf)[k - state_name().len() - 1]);
        }
    }

    // state lookup: skip `response_type=code`, skip `client_id=...`, hit
    let sn = state_name();
    assert(a_rt.len() >= sn.len() + 1);
    assert(a_rt.take(sn.len() as int)[0] == a_rt[0]);
    assert(a_rt[0] == 0x72 && sn[0] == 0x73);
    assert(a_rt.take(sn.len() as int) != sn);
    lemma_find_param_miss(a_rt, r1, sn);
    assert(a_ci.len() >= sn.len() + 1);
    assert(a_ci.take(sn.len() as int)[0] == a_ci[0]);
    assert(a_ci[0] == client_id_name()[0]);
    assert(a_ci[0] == 0x63);
    assert(a_ci.take(sn.len() as int) != sn);
    lemma_find_param_miss(a_ci, r2, sn);
    lemma_find_param_hit(pe(csrf), r3, sn);
    assert(r2 =~= sn + seq![0x3du8] + pe(csrf) + seq![0x26u8] + r3);
    assert(spec_find_param(q, sn) == Some(pe(csrf)));

    // nonce lookup: skip the first three pairs, hit the fourth
    let nn = nonce_name();
    assert(a_rt.take(nn.len() as int)[0] == a_rt[0]);
    assert(nn[0] == 0x6e);
    assert(a_rt.take(nn.len() as int) != nn);
    lemma_find_param_miss(a_rt, r1, nn);
    assert(a_ci.take(nn.len() as int)[0] == a_ci[0]);
    assert(a_ci.take(nn.len() as int) != nn);
    lemma_find_param_miss(a_ci, r2, nn);
    assert(a_st.len() >= nn.len() + 1);
    assert(a_st.take(nn.len() as int)[0] == a_st[0]);
    assert(a_st[0] == state_name()[0]);
    assert(a_st[0] == 0x73);
    assert(a_st.take(nn.len() as int) != nn);
    lemma_find_param_miss(a_st, r3, nn);
    lemma_find_param_hit(pe(nonce), r4, nn);
    assert(r3 =~= nn + seq![0x3du8] + pe(nonce) + seq![0x26u8] + r4);
    assert(spec_find_param(q, nn) == Some(pe(nonce)));
}

/// The authorize URL embeds the CSRF token and the nonce verbatim: reading
/// the `state` and `nonce` query parameters back out of the built URL
/// recovers exactly the values that went in. This holds for every endpoint
/// whose own query, if it has one, does not itself carry a `state=` or
/// `nonce=` pair ahead of the appended parameters.
pub proof fn lemma_authorize_url_embeds(
    endpoint: Seq<u8>,
    client_id: Seq<u8>,
    redirect_uri: Seq<u8>,
    csrf: Seq<u8>,
    nonce: Seq<u8>,
)
    requires
        match after_qmark(endpoint) {
            Some(eq) => !query_names_param(eq, state_name()) && !query_names_param(
                eq,
                nonce_name(),
            ),
            None => true,
        },
    ensures
        spec_query_param(
            spec_authorize_url(endpoint, client_id, redirect_uri, csrf, nonce),
            state_name(),
        ) == Some(csrf),
        spec_query_param(
            spec_authorize_url(endpoint, client_id, redirect_uri, csrf, nonce),
            nonce_name(),
        ) == Some(nonce),
{
    let url = spec_authorize_url(endpoint, client_id, redirect_uri, csrf, nonce);
    let q = auth_query(client_id, redirect_uri, csrf, nonce);
    lemma_find_in_auth_query(client_id, redirect_uri, csrf, nonce);
    lemma_pd_pe(csrf);
    lemma_pd_pe(nonce);
    match after_qmark(endpoint) {
        None => {
            assert(url =~= endpoint + seq![0x3fu8] + q);
            lemma_after_qmark_concat(endpoint, q);
            assert(after_qmark(url) == Some(q));
        },
        Some(eq) => {
            if eq.len() == 0 {
                assert(url =~= endpoint + q);
                lemma_after_qmark_extend(endpoint, eq, q);
                assert(eq + q =~= q);
                assert(after_qmark(url) == Some(q));
            } else {
                let x = seq![0x26u8] + q;
                assert(url =~= endpoint + x);
                lemma_after_qmark_extend(endpoint, eq, x);
                assert(eq + x =~= eq + seq![0x26u8] + q);
                assert(after_qmark(url) == Some(eq + seq![0x26u8] + q));
                lemma_find_param_passes(eq, q, state_name());
                lemma_find_param_passes(eq, q, nonce_name());
            }
        },
    }
    assert(spec_query_param(url, state_name()) == Some(csrf));
    assert(spec_query_param(url, nonce_name()) == Some(nonce));
}

} // verus!
