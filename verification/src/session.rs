//! Session cookie record and its wire codec.
//!
//! A session is stored client-side as one cookie holding the access token and
//! the identity token. The wire form is a canonical JSON object with exactly
//! these two string members, in this order, with the canonical string
//! escaping: `{"access_token":"...","id_token":"..."}`. `encode` produces
//! that form; `decode` accepts exactly the well-formed encodings and rejects
//! everything else, so the two are exact inverses.

use vstd::prelude::*;

verus! {

/// The durable browser session: the two tokens obtained from the provider's
/// token endpoint. Token bytes are opaque to this core.
pub struct SessionCookie {
    pub access_token: Vec<u8>,
    pub id_token: Vec<u8>,
}

/// Hexadecimal digit (lowercase) for a value below 16.
pub open spec fn hex_digit(n: u8) -> u8 {
    if n < 10 {
        (0x30 + n) as u8
    } else {
        (0x57 + n) as u8
    }
}

/// Value of a lowercase hexadecimal digit byte, if it is one.
pub open spec fn hex_val(c: u8) -> Option<u8> {
    if 0x30 <= c && c <= 0x39 {
        Some((c - 0x30) as u8)
    } else if 0x61 <= c && c <= 0x66 {
        Some((c - 0x57) as u8)
    } else {
        None
    }
}

/// Control bytes that the canonical escaping writes as a two-byte escape.
pub open spec fn has_short_escape(b: u8) -> bool {
    b == 0x08 || b == 0x09 || b == 0x0a || b == 0x0c || b == 0x0d
}

/// The byte a two-byte escape `\x` stands for, by its second byte `x`.
pub open spec fn short_unescape(e: u8) -> u8 {
    if e == 0x22 {
        0x22
    } else if e == 0x5c {
        0x5c
    } else if e == 0x62 {
        0x08
    } else if e == 0x74 {
        0x09
    } else if e == 0x6e {
        0x0a
    } else if e == 0x66 {
        0x0c
    } else {
        0x0d
    }
}

/// Canonical escaping of one byte inside a JSON string: quote and backslash
/// get a two-byte escape, the named control bytes their short form, the other
/// control bytes `\u00xy` with lowercase hex digits, everything else stands
/// for itself.
pub open spec fn esc_byte(b: u8) -> Seq<u8> {
    if b == 0x22 {
        seq![0x5cu8, 0x22u8]
    } else if b == 0x5c {
        seq![0x5cu8, 0x5cu8]
    } else if b == 0x08 {
        seq![0x5cu8, 0x62u8]
    } else if b == 0x09 {
        seq![0x5cu8, 0x74u8]
    } else if b == 0x0a {
        seq![0x5cu8, 0x6eu8]
    } else if b == 0x0c {
        seq![0x5cu8, 0x66u8]
    } else if b == 0x0d {
        seq![0x5cu8, 0x72u8]
    } else if b < 0x20 {
        seq![0x5cu8, 0x75u8, 0x30u8, 0x30u8, hex_digit((b / 16) as u8), hex_digit((b % 16) as u8)]
    } else {
        seq![b]
    }
}

/// Canonical escaping of a whole byte string.
pub open spec fn esc(s: Seq<u8>) -> Seq<u8>
    decreases s.len(),
{
    if s.len() == 0 {
        Seq::empty()
    } else {
        esc_byte(s.first()) + esc(s.drop_first())
    }
}

/// The bytes of `{"access_token":"`.
pub open spec fn prefix_bytes() -> Seq<u8> {
    seq![
        0x7bu8, 0x22u8, 0x61u8, 0x63u8, 0x63u8, 0x65u8, 0x73u8, 0x73u8, 0x5fu8, 0x74u8, 0x6fu8,
        0x6bu8, 0x65u8, 0x6eu8, 0x22u8, 0x3au8, 0x22u8,
    ]
}

/// The bytes of `,"id_token":"`.
pub open spec fn mid_bytes() -> Seq<u8> {
    seq![
        0x2cu8, 0x22u8, 0x69u8, 0x64u8, 0x5fu8, 0x74u8, 0x6fu8, 0x6bu8, 0x65u8, 0x6eu8, 0x22u8,
        0x3au8, 0x22u8,
    ]
}

/// The one well-formed wire encoding of a session with access token `a` and
/// identity token `i`.
pub open spec fn spec_encode(a: Seq<u8>, i: Seq<u8>) -> Seq<u8> {
    prefix_bytes() + esc(a) + seq![0x22u8] + mid_bytes() + esc(i) + seq![0x22u8, 0x7du8]
}

/// Parse one canonically escaped JSON string up to and including its closing
/// quote; yield the unescaped content and the remaining input.
pub open spec fn unesc_str(s: Seq<u8>) -> Option<(Seq<u8>, Seq<u8>)>
    decreases s.len(),
{
    if s.len() == 0 {
        None
    } else if s.first() == 0x22 {
        Some((Seq::empty(), s.skip(1)))
    } else if s.first() == 0x5c {
        if s.len() < 2 {
            None
        } else {
            let e = s[1];
            if e == 0x22 || e == 0x5c || e == 0x62 || e == 0x74 || e == 0x6e || e == 0x66
                || e == 0x72 {
                match unesc_str(s.skip(2)) {
                    Some(p) => Some((seq![short_unescape(e)] + p.0, p.1)),
                    None => None,
                }
            } else if e == 0x75 {
                if s.len() < 6 {
                    None
                } else if s[2] == 0x30 && s[3] == 0x30 {
                    match (hex_val(s[4]), hex_val(s[5])) {
                        (Some(h1), Some(h2)) => {
                            let v = (h1 * 16 + h2) as u8;
                            if v < 0x20 && !has_short_escape(v) && v != 0x22 && v != 0x5c {
                                match unesc_str(s.skip(6)) {
                                    Some(p) => Some((seq![v] + p.0, p.1)),
                                    None => None,
                                }
                            } else {
                                None
                            }
                        },
                        _ => None,
                    }
                } else {
                    None
                }
            } else {
                None
            }
        }
    } else if s.first() >= 0x20 {
        match unesc_str(s.skip(1)) {
            Some(p) => Some((seq![s.first()] + p.0, p.1)),
            None => None,
        }
    } else {
        None
    }
}

/// Parse a whole wire encoding: the fixed frame around two canonically
/// escaped strings, and nothing after the closing brace.
pub open spec fn spec_decode(s: Seq<u8>) -> Option<(Seq<u8>, Seq<u8>)> {
    if s.len() >= 17 && s.take(17) == prefix_bytes() {
        match unesc_str(s.skip(17)) {
            Some(p1) => {
                if p1.1.len() >= 13 && p1.1.take(13) == mid_bytes() {
                    match unesc_str(p1.1.skip(13)) {
                        Some(p2) => {
                            if p2.1 == seq![0x7du8] {
                                Some((p1.0, p2.0))
                            } else {
                                None
                            }
                        },
                        None => None,
                    }
                } else {
                    None
                }
            },
            None => None,
        }
    } else {
        None
    }
}

/// Escaping a concatenation escapes the parts in order.
pub proof fn lemma_esc_append(a: Seq<u8>, b: Seq<u8>)
    ensures
        esc(a + b) == esc(a) + esc(b),
    decreases a.len(),
{
    if a.len() == 0 {
        assert(a + b =~= b);
        assert(esc(a) + esc(b) =~= esc(b));
    } else {
        assert((a + b).first() == a.first());
        assert((a + b).drop_first() =~= a.drop_first() + b);
        lemma_esc_append(a.drop_first(), b);
        assert(esc(a + b) =~= esc(a) + esc(b));
    }
}

/// Escaping a string extended by one byte appends that byte's escape.
pub proof fn lemma_esc_push(a: Seq<u8>, b: u8)
    ensures
        esc(a.push(b)) == esc(a) + esc_byte(b),
{
    lemma_esc_append(a, seq![b]);
    assert(a.push(b) =~= a + seq![b]);
    assert(seq![b].drop_first() =~= Seq::<u8>::empty());
    assert(seq![b].first() == b);
    assert(esc(seq![b]) == esc_byte(b) + esc(Seq::<u8>::empty()));
    assert(esc(seq![b]) =~= esc_byte(b));
}

fn hex_digit_ex(n: u8) -> (r: u8)
    requires
        n < 16,
    ensures
        r == hex_digit(n),
{
    if n < 10 {
        0x30 + n
    } else {
        0x57 + n
    }
}

fn push_escaped(out: &mut Vec<u8>, b: u8)
    ensures
        final(out)@ == old(out)@ + esc_byte(b),
{
    if b == 0x22 {
        out.push(0x5c);
        out.push(0x22);
        assert(out@ =~= old(out)@ + esc_byte(b));
    } else if b == 0x5c {
        out.push(0x5c);
        out.push(0x5c);
        assert(out@ =~= old(out)@ + esc_byte(b));
    } else if b == 0x08 {
        out.push(0x5c);
        out.push(0x62);
        assert(out@ =~= old(out)@ + esc_byte(b));
    } else if b == 0x09 {
        out.push(0x5c);
        out.push(0x74);
        assert(out@ =~= old(out)@ + esc_byte(b));
    } else if b == 0x0a {
        out.push(0x5c);
        out.push(0x6e);
        assert(out@ =~= old(out)@ + esc_byte(b));
    } else if b == 0x0c {
        out.push(0x5c);
        out.push(0x66);
        assert(out@ =~= old(out)@ + esc_byte(b));
    } else if b == 0x0d {
        out.push(0x5c);
        out.push(0x72);
        assert(out@ =~= old(out)@ + esc_byte(b));
    } else if b < 0x20 {
        out.push(0x5c);
        out.push(0x75);
        out.push(0x30);
        out.push(0x30);
        out.push(hex_digit_ex(b / 16));
        out.push(hex_digit_ex(b % 16));
        assert(out@ =~= old(out)@ + esc_byte(b));
    } else {
        out.push(b);
        assert(out@ =~= old(out)@ + esc_byte(b));
    }
}

fn push_escaped_all(out: &mut Vec<u8>, s: &Vec<u8>)
    ensures
        final(out)@ == old(out)@ + esc(s@),
{
    proof {
        assert(s@.take(0) =~= Seq::<u8>::empty());
        assert(out@ =~= old(out)@ + esc(s@.take(0)));
    }
    let mut i: usize = 0;
    while i < s.len()
        invariant
            i <= s@.len(),
            out@ == old(out)@ + esc(s@.take(i as int)),
        decreases s@.len() - i,
    {
        push_escaped(out, s[i]);
        proof {
            lemma_esc_push(s@.take(i as int), s@[i as int]);
            assert(s@.take(i as int).push(s@[i as int]) =~= s@.take(i as int + 1));
        }
        i = i + 1;
    }
    proof {
        assert(s@.take(s@.len() as int) =~= s@);
    }
}

fn push_prefix(out: &mut Vec<u8>)
    ensures
        final(out)@ == old(out)@ + prefix_bytes(),
{
    out.push(0x7b);
    out.push(0x22);
    out.push(0x61);
    out.push(0x63);
    out.push(0x63);
    out.push(0x65);
    out.push(0x73);
    out.push(0x73);
    out.push(0x5f);
    out.push(0x74);
    out.push(0x6f);
    out.push(0x6b);
    out.push(0x65);
    out.push(0x6e);
    out.push(0x22);
    out.push(0x3a);
    out.push(0x22);
    assert(out@ =~= old(out)@ + prefix_bytes());
}

fn push_mid(out: &mut Vec<u8>)
    ensures
        final(out)@ == old(out)@ + mid_bytes(),
{
    out.push(0x2c);
    out.push(0x22);
    out.push(0x69);
    out.push(0x64);
    out.push(0x5f);
    out.push(0x74);
    out.push(0x6f);
    out.push(0x6b);
    out.push(0x65);
    out.push(0x6e);
    out.push(0x22);
    out.push(0x3a);
    out.push(0x22);
    assert(out@ =~= old(out)@ + mid_bytes());
}

impl SessionCookie {
    /// Serialize this session into its one well-formed wire encoding.
    /// Encoding never fails.
    pub fn encode(&self) -> (r: Vec<u8>)
        ensures
            r@ == spec_encode(self.access_token@, self.id_token@),
    {
        let mut out: Vec<u8> = Vec::new();
        push_prefix(&mut out);
        push_escaped_all(&mut out, &self.access_token);
        out.push(0x22);
        push_mid(&mut out);
        push_escaped_all(&mut out, &self.id_token);
        out.push(0x22);
        out.push(0x7d);
        proof {
            assert(out@ =~= spec_encode(self.access_token@, self.id_token@));
        }
        out
    }
}

/// The canonical string parser accepts exactly what the canonical escaping
/// produced, recovers the original bytes, and stops at the closing quote.
pub proof fn lemma_unesc_esc(a: Seq<u8>, rest: Seq<u8>)
    ensures
        unesc_str(esc(a) + seq![0x22u8] + rest) == Some((a, rest)),
    decreases a.len(),
{
    let s = esc(a) + seq![0x22u8] + rest;
    if a.len() == 0 {
        assert(esc(a) =~= Seq::<u8>::empty());
        assert(s =~= seq![0x22u8] + rest);
        assert(s.first() == 0x22);
        assert(s.skip(1) =~= rest);
        assert(a =~= Seq::<u8>::empty());
        assert(unesc_str(s) == Some((a, rest)));
    } else {
        let b = a.first();
        let tail = esc(a.drop_first()) + seq![0x22u8] + rest;
        assert(esc(a) == esc_byte(b) + esc(a.drop_first()));
        assert(s =~= esc_byte(b) + tail);
        lemma_unesc_esc(a.drop_first(), rest);
        assert(seq![b] + a.drop_first() =~= a);
        if b == 0x22 || b == 0x5c || b == 0x08 || b == 0x09 || b == 0x0a || b == 0x0c
            || b == 0x0d {
            assert(s.first() == 0x5c);
            assert(s.skip(2) =~= tail);
            assert(short_unescape(s[1]) == b);
            assert(unesc_str(s) == Some((a, rest)));
        } else if b < 0x20 {
            let h1 = (b / 16) as u8;
            let h2 = (b % 16) as u8;
            assert(s.first() == 0x5c && s[1] == 0x75 && s[2] == 0x30 && s[3] == 0x30);
            assert(s[4] == hex_digit(h1) && s[5] == hex_digit(h2));
            assert(hex_val(hex_digit(h1)) == Some(h1));
            assert(hex_val(hex_digit(h2)) == Some(h2));
            assert(h1 * 16 + h2 == b);
            assert(s.len() >= 6);
            assert(s.skip(6) =~= tail);
            assert(unesc_str(s) == Some((a, rest)));
        } else {
            assert(s.first() == b);
            assert(b != 0x22 && b != 0x5c && b >= 0x20);
            assert(s.skip(1) =~= tail);
            assert(unesc_str(s) == Some((a, rest)));
        }
    }
}

/// Round trip at the level of the wire format: decoding any well-formed
/// encoding yields back exactly the encoded token pair.
pub proof fn lemma_decode_encode(a: Seq<u8>, i: Seq<u8>)
    ensures
        spec_decode(spec_encode(a, i)) == Some((a, i)),
{
    let s = spec_encode(a, i);
    let rest1 = mid_bytes() + esc(i) + seq![0x22u8, 0x7du8];
    assert(s.len() >= 17);
    assert(s.take(17) =~= prefix_bytes());
    assert(s.skip(17) =~= esc(a) + seq![0x22u8] + rest1);
    lemma_unesc_esc(a, rest1);
    assert(rest1.len() >= 13);
    assert(rest1.take(13) =~= mid_bytes());
    assert(rest1.skip(13) =~= esc(i) + seq![0x22u8] + seq![0x7du8]);
    lemma_unesc_esc(i, seq![0x7du8]);
    assert(spec_decode(s) == Some((a, i)));
}

/// The canonical string parser succeeds only on input that is the canonical
/// escaping of what it returned, followed by the closing quote and the rest.
pub proof fn lemma_unesc_sound(s: Seq<u8>, v: Seq<u8>, rest: Seq<u8>)
    requires
        unesc_str(s) == Some((v, rest)),
    ensures
        s == esc(v) + seq![0x22u8] + rest,
    decreases s.len(),
{
    assert(s.len() > 0);
    if s.first() == 0x22 {
        assert(v == Seq::<u8>::empty());
        assert(rest == s.skip(1));
        assert(esc(v) =~= Seq::<u8>::empty());
        assert(s =~= esc(v) + seq![0x22u8] + rest);
    } else if s.first() == 0x5c {
        let e = s[1];
        if e == 0x22 || e == 0x5c || e == 0x62 || e == 0x74 || e == 0x6e || e == 0x66
            || e == 0x72 {
            match unesc_str(s.skip(2)) {
                Some(p) => {
                    lemma_unesc_sound(s.skip(2), p.0, p.1);
                    assert(v == seq![short_unescape(e)] + p.0);
                    assert(rest == p.1);
                    let c = short_unescape(e);
                    assert(esc_byte(c) =~= seq![0x5cu8, e]);
                    assert(v.first() == c);
                    assert(v.drop_first() =~= p.0);
                    assert(esc(v) == esc_byte(c) + esc(v.drop_first()));
                    assert(s =~= seq![0x5cu8, e] + s.skip(2));
                    assert(s =~= esc(v) + seq![0x22u8] + rest);
                },
                None => {
                    assert(false);
                },
            }
        } else {
            assert(e == 0x75);
            match (hex_val(s[4]), hex_val(s[5])) {
                (Some(h1), Some(h2)) => {
                    let v0 = (h1 * 16 + h2) as u8;
                    assert(v0 < 0x20 && !has_short_escape(v0));
                    match unesc_str(s.skip(6)) {
                        Some(p) => {
                            lemma_unesc_sound(s.skip(6), p.0, p.1);
                            assert(v == seq![v0] + p.0);
                            assert(rest == p.1);
                            if h1 == 0 {
                                assert(v0 / 16 == 0 && v0 % 16 == h2);
                            } else {
                                assert(h1 == 1);
                                assert(v0 / 16 == 1 && v0 % 16 == h2);
                            }
                            assert(hex_digit(h1) == s[4]);
                            assert(hex_digit(h2) == s[5]);
                            assert(esc_byte(v0) =~= seq![
                                0x5cu8, 0x75u8, 0x30u8, 0x30u8, s[4], s[5],
                            ]);
                            assert(v.first() == v0);
                            assert(v.drop_first() =~= p.0);
                            assert(esc(v) == esc_byte(v0) + esc(v.drop_first()));
                            assert(s =~= seq![0x5cu8, 0x75u8, 0x30u8, 0x30u8, s[4], s[5]] + s.skip(
                                6,
                            ));
                            assert(s =~= esc(v) + seq![0x22u8] + rest);
                        },
                        None => {
                            assert(false);
                        },
                    }
                },
                _ => {
                    assert(false);
                },
            }
        }
    } else {
        let b = s.first();
        assert(b >= 0x20);
        match unesc_str(s.skip(1)) {
            Some(p) => {
                lemma_unesc_sound(s.skip(1), p.0, p.1);
                assert(v == seq![b] + p.0);
                assert(rest == p.1);
                assert(esc_byte(b) =~= seq![b]);
                assert(v.first() == b);
                assert(v.drop_first() =~= p.0);
                assert(esc(v) == esc_byte(b) + esc(v.drop_first()));
                assert(s =~= seq![b] + s.skip(1));
                assert(s =~= esc(v) + seq![0x22u8] + rest);
            },
            None => {
                assert(false);
            },
        }
    }
}

/// A successful whole-format parse means the input is exactly the one
/// well-formed encoding of the parsed token pair.
pub proof fn lemma_spec_decode_sound(s: Seq<u8>, a: Seq<u8>, i: Seq<u8>)
    requires
        spec_decode(s) == Some((a, i)),
    ensures
        s == spec_encode(a, i),
{
    match unesc_str(s.skip(17)) {
        Some(p1) => {
            lemma_unesc_sound(s.skip(17), p1.0, p1.1);
            match unesc_str(p1.1.skip(13)) {
                Some(p2) => {
                    lemma_unesc_sound(p1.1.skip(13), p2.0, p2.1);
                    assert(a == p1.0 && i == p2.0);
                    assert(p2.1 == seq![0x7du8]);
                    assert(p1.1 =~= mid_bytes() + p1.1.skip(13));
                    assert(s =~= prefix_bytes() + s.skip(17));
                    assert(s =~= spec_encode(a, i));
                },
                None => {
                    assert(false);
                },
            }
        },
        None => {
            assert(false);
        },
    }
}

/// Distinct sessions never share a wire encoding.
pub proof fn lemma_encode_injective(a1: Seq<u8>, i1: Seq<u8>, a2: Seq<u8>, i2: Seq<u8>)
    requires
        spec_encode(a1, i1) == spec_encode(a2, i2),
    ensures
        a1 == a2 && i1 == i2,
{
    lemma_decode_encode(a1, i1);
    lemma_decode_encode(a2, i2);
}

fn short_unescape_ex(e: u8) -> (r: u8)
    ensures
        r == short_unescape(e),
{
    if e == 0x22 {
        0x22
    } else if e == 0x5c {
        0x5c
    } else if e == 0x62 {
        0x08
    } else if e == 0x74 {
        0x09
    } else if e == 0x6e {
        0x0a
    } else if e == 0x66 {
        0x0c
    } else {
        0x0d
    }
}

fn hex_val_ex(c: u8) -> (r: Option<u8>)
    ensures
        r == hex_val(c),
{
    if 0x30 <= c && c <= 0x39 {
        Some(c - 0x30)
    } else if 0x61 <= c && c <= 0x66 {
        Some(c - 0x57)
    } else {
        None
    }
}

fn match_bytes(s: &Vec<u8>, at: usize, pat: &Vec<u8>) -> (r: bool)
    requires
        at <= s@.len(),
    ensures
        r <==> (at + pat@.len() <= s@.len() && s@.subrange(
            at as int,
            at as int + pat@.len() as int,
        ) == pat@),
{
    if s.len() - at < pat.len() {
        return false;
    }
    let mut j: usize = 0;
    while j < pat.len()
        invariant
            at + pat@.len() <= s@.len(),
            j <= pat@.len(),
            forall|k: int| 0 <= k < j ==> s@[at + k] == pat@[k],
        decreases pat@.len() - j,
    {
        proof {
            assert(at + j < s.len());
        }
        if s[at + j] != pat[j] {
            proof {
                let sub = s@.subrange(at as int, at as int + pat@.len() as int);
                if sub == pat@ {
                    assert(sub[j as int] == s@[at + j]);
                    assert(false);
                }
            }
            return false;
        }
        j = j + 1;
    }
    proof {
        assert(s@.subrange(at as int, at as int + pat@.len() as int) =~= pat@);
    }
    true
}

fn prefix_vec() -> (v: Vec<u8>)
    ensures
        v@ == prefix_bytes(),
{
    let mut v: Vec<u8> = Vec::new();
    push_prefix(&mut v);
    proof {
        assert(v@ =~= prefix_bytes());
    }
    v
}

fn mid_vec() -> (v: Vec<u8>)
    ensures
        v@ == mid_bytes(),
{
    let mut v: Vec<u8> = Vec::new();
    push_mid(&mut v);
    proof {
        assert(v@ =~= mid_bytes());
    }
    v
}

fn unescape_from(s: &Vec<u8>, start: usize) -> (r: Option<(Vec<u8>, usize)>)
    requires
        start <= s@.len(),
    ensures
        match r {
            Some(p) => p.1 <= s@.len() && unesc_str(s@.skip(start as int)) == Some(
                (p.0@, s@.skip(p.1 as int)),
            ),
            None => unesc_str(s@.skip(start as int)) == None::<(Seq<u8>, Seq<u8>)>,
        },
{
    let mut i: usize = start;
    let mut acc: Vec<u8> = Vec::new();
    proof {
        match unesc_str(s@.skip(start as int)) {
            Some(p) => {
                assert(acc@ + p.0 =~= p.0);
            },
            None => {},
        }
    }
    loop
        invariant
            start <= i <= s@.len(),
            unesc_str(s@.skip(start as int)) == match unesc_str(s@.skip(i as int)) {
                Some(p) => Some((acc@ + p.0, p.1)),
                None => None::<(Seq<u8>, Seq<u8>)>,
            },
        decreases s@.len() - i,
    {
        if i >= s.len() {
            proof {
                assert(s@.skip(i as int) =~= Seq::<u8>::empty());
            }
            return None;
        }
        let b = s[i];
        proof {
            assert(s@.skip(i as int).first() == b);
        }
        if b == 0x22 {
            proof {
                assert(s@.skip(i as int).skip(1) =~= s@.skip(i as int + 1));
                assert(acc@ + Seq::<u8>::empty() =~= acc@);
            }
            return Some((acc, i + 1));
        }
        if b == 0x5c {
            if s.len() - i < 2 {
                proof {
                    assert(s@.skip(i as int).len() < 2);
                }
                return None;
            }
            let e = s[i + 1];
            proof {
                assert(s@.skip(i as int)[1] == e);
            }
            if e == 0x22 || e == 0x5c || e == 0x62 || e == 0x74 || e == 0x6e || e == 0x66
                || e == 0x72 {
                let c = short_unescape_ex(e);
                let ghost old_acc = acc@;
                acc.push(c);
                proof {
                    assert(s@.skip(i as int).skip(2) =~= s@.skip(i as int + 2));
                    match unesc_str(s@.skip(i as int + 2)) {
                        Some(p) => {
                            assert(old_acc + (seq![c] + p.0) =~= acc@ + p.0);
                        },
                        None => {},
                    }
                }
                i = i + 2;
            } else if e == 0x75 {
                if s.len() - i < 6 {
                    proof {
                        assert(s@.skip(i as int).len() < 6);
                    }
                    return None;
                }
                proof {
                    assert(s@.skip(i as int)[2] == s@[i + 2]);
                    assert(s@.skip(i as int)[3] == s@[i + 3]);
                    assert(s@.skip(i as int)[4] == s@[i + 4]);
                    assert(s@.skip(i as int)[5] == s@[i + 5]);
                }
                if s[i + 2] != 0x30 || s[i + 3] != 0x30 {
                    return None;
                }
                let h1o = hex_val_ex(s[i + 4]);
                let h2o = hex_val_ex(s[i + 5]);
                match (h1o, h2o) {
                    (Some(h1), Some(h2)) => {
                        let v: u8 = h1 * 16 + h2;
                        if v < 0x20 && !(v == 0x08 || v == 0x09 || v == 0x0a || v == 0x0c || v
                            == 0x0d) {
                            let ghost old_acc = acc@;
                            acc.push(v);
                            proof {
                                assert(s@.skip(i as int).skip(6) =~= s@.skip(i as int + 6));
                                match unesc_str(s@.skip(i as int + 6)) {
                                    Some(p) => {
                                        assert(old_acc + (seq![v] + p.0) =~= acc@ + p.0);
                                    },
                                    None => {},
                                }
                            }
                            i = i + 6;
                        } else {
                            return None;
                        }
                    },
                    _ => {
                        return None;
                    },
                }
            } else {
                return None;
            }
        } else if b >= 0x20 {
            let ghost old_acc = acc@;
            acc.push(b);
            proof {
                assert(s@.skip(i as int).skip(1) =~= s@.skip(i as int + 1));
                match unesc_str(s@.skip(i as int + 1)) {
                    Some(p) => {
                        assert(old_acc + (seq![b] + p.0) =~= acc@ + p.0);
                    },
                    None => {},
                }
            }
            i = i + 1;
        } else {
            return None;
        }
    }
}

fn decode_canonical(s: &Vec<u8>) -> (r: Option<SessionCookie>)
    ensures
        match r {
            Some(c) => spec_decode(s@) == Some((c.access_token@, c.id_token@)),
            None => spec_decode(s@) == None::<(Seq<u8>, Seq<u8>)>,
        },
{
    let pre = prefix_vec();
    if !match_bytes(s, 0, &pre) {
        proof {
            if s@.len() >= 17 {
                assert(s@.take(17) =~= s@.subrange(0, 17));
            }
        }
        return None;
    }
    proof {
        assert(s@.take(17) =~= s@.subrange(0, 17));
    }
    match unescape_from(s, 17) {
        None => None,
        Some((a_vec, p1)) => {
            let midv = mid_vec();
            if !match_bytes(s, p1, &midv) {
                proof {
                    let rest1 = s@.skip(p1 as int);
                    if rest1.len() >= 13 {
                        assert(rest1.take(13) =~= s@.subrange(p1 as int, p1 as int + 13));
                    }
                }
                return None;
            }
            proof {
                assert(p1 as int + 13 <= s.len());
                assert(s@.skip(p1 as int).take(13) =~= s@.subrange(p1 as int, p1 as int + 13));
                assert(s@.skip(p1 as int).skip(13) =~= s@.skip(p1 as int + 13));
            }
            match unescape_from(s, p1 + 13) {
                None => None,
                Some((i_vec, p2)) => {
                    if p2 < s.len() && s.len() - p2 == 1 && s[p2] == 0x7d {
                        proof {
                            assert(s@.skip(p2 as int) =~= seq![0x7du8]);
                        }
                        Some(SessionCookie { access_token: a_vec, id_token: i_vec })
                    } else {
                        proof {
                            let rest2 = s@.skip(p2 as int);
                            if rest2 == seq![0x7du8] {
                                assert(rest2.len() == 1);
                                assert(rest2[0] == 0x7d);
                                assert(s@[p2 as int] == 0x7d);
                                assert(false);
                            }
                        }
                        None
                    }
                },
            }
        },
    }
}

impl SessionCookie {
    /// Deserialize a session from its wire form. Returns the session exactly
    /// when the input is a well-formed encoding, and rejects every other
    /// input, so `decode` is the exact inverse of `encode`.
    pub fn decode(s: &Vec<u8>) -> (r: Option<SessionCookie>)
        ensures
            match r {
                Some(c) => s@ == spec_encode(c.access_token@, c.id_token@),
                None => forall|a: Seq<u8>, i: Seq<u8>| s@ != spec_encode(a, i),
            },
    {
        match decode_canonical(s) {
            Some(c) => {
                proof {
                    lemma_spec_decode_sound(s@, c.access_token@, c.id_token@);
                }
                Some(c)
            },
            None => {
                proof {
                    assert forall|a: Seq<u8>, i: Seq<u8>| s@ != spec_encode(a, i) by {
                        if s@ == spec_encode(a, i) {
                            lemma_decode_encode(a, i);
                        }
                    }
                }
                None
            },
        }
    }
}

} // verus!

