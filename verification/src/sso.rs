//! EVE SSO with PKCE: the code verifier and its challenge, the authorization
//! URL, and the payload text of an access token.
use vstd::prelude::*;
use base64::Engine;
use rand::RngCore;
use sha2::Digest;
use crate::text::{chars_of, extend_str, split, split_chars, string_from};
use vstd::utf8::{decode_utf8, encode_utf8, valid_utf8};

verus! {

// ---------------------------------------------------------------------------
// Outside calls
// ---------------------------------------------------------------------------

/// A character of the URL-safe base64 alphabet.
pub open spec fn is_url_safe_b64(c: char) -> bool {
    ('A' <= c && c <= 'Z') || ('a' <= c && c <= 'z') || ('0' <= c && c <= '9') || c == '-' || c
        == '_'
}

/// The character of a 6-bit value in the URL-safe base64 alphabet.
pub open spec fn b64_char(v: int) -> char {
    if v < 26 {
        ('A' as int + v) as char
    } else if v < 52 {
        ('a' as int + (v - 26)) as char
    } else if v < 62 {
        ('0' as int + (v - 52)) as char
    } else if v == 62 {
        '-'
    } else {
        '_'
    }
}

/// The URL-safe base64 text, without padding, of some bytes: each group of
/// three bytes as four characters of six bits each, and a final group of one
/// or two bytes as two or three characters (the unused low bits zero).
pub open spec fn base64_url(b: Seq<u8>) -> Seq<char>
    decreases b.len(),
{
    if b.len() == 0 {
        Seq::empty()
    } else if b.len() == 1 {
        seq![b64_char((b[0] as int) / 4), b64_char(((b[0] as int) % 4) * 16)]
    } else if b.len() == 2 {
        seq![b64_char((b[0] as int) / 4), b64_char(((b[0] as int) % 4) * 16 + (b[1] as int) / 16), b64_char(((b[1] as int) % 16) * 4)]
    } else {
        seq![
            b64_char((b[0] as int) / 4),
            b64_char(((b[0] as int) % 4) * 16 + (b[1] as int) / 16),
            b64_char(((b[1] as int) % 16) * 4 + (b[2] as int) / 64),
            b64_char((b[2] as int) % 64),
        ] + base64_url(b.skip(3))
    }
}

/// The length of the encoding is `4n/3` rounded up, and every character is
/// from the URL-safe alphabet.
pub proof fn lemma_base64_url_shape(b: Seq<u8>)
    ensures
        base64_url(b).len() == (4 * b.len() + 2) / 3,
        forall|i: int| 0 <= i < base64_url(b).len() ==> is_url_safe_b64(#[trigger] base64_url(b)[i]),
    decreases b.len(),
{
    if b.len() >= 3 {
        lemma_base64_url_shape(b.skip(3));
        let head = seq![
            b64_char((b[0] as int) / 4),
            b64_char(((b[0] as int) % 4) * 16 + (b[1] as int) / 16),
            b64_char(((b[1] as int) % 16) * 4 + (b[2] as int) / 64),
            b64_char((b[2] as int) % 64),
        ];
        let t = base64_url(b.skip(3));
        assert forall|i: int| 0 <= i < base64_url(b).len() implies is_url_safe_b64(#[trigger] base64_url(b)[i]) by {
            if i >= 4 {
                assert(base64_url(b)[i] == t[i - 4]);
            }
        }
    }
}

/// The code point of `b64_char(v)` for a 6-bit value.
pub open spec fn b64_code(v: int) -> int {
    if v < 26 {
        65 + v
    } else if v < 52 {
        71 + v
    } else if v < 62 {
        v - 4
    } else if v == 62 {
        45
    } else {
        95
    }
}

proof fn lemma_b64_char_inj(a: int, b: int)
    requires
        0 <= a < 64,
        0 <= b < 64,
        b64_char(a) == b64_char(b),
    ensures
        a == b,
{
    assert(b64_char(a) as int == b64_code(a));
    assert(b64_char(b) as int == b64_code(b));
}

proof fn lemma_group_inj(a0: u8, a1: u8, a2: u8, b0: u8, b1: u8, b2: u8)
    requires
        a0 / 4 == b0 / 4,
        (a0 % 4) * 16 + a1 / 16 == (b0 % 4) * 16 + b1 / 16,
        (a1 % 16) * 4 + a2 / 64 == (b1 % 16) * 4 + b2 / 64,
        a2 % 64 == b2 % 64,
    ensures
        a0 == b0 && a1 == b1 && a2 == b2,
{
    assert(a0 == b0 && a1 == b1 && a2 == b2) by (bit_vector)
        requires
            a0 / 4 == b0 / 4,
            (a0 % 4) * 16 + a1 / 16 == (b0 % 4) * 16 + b1 / 16,
            (a1 % 16) * 4 + a2 / 64 == (b1 % 16) * 4 + b2 / 64,
            a2 % 64 == b2 % 64,
    ;
}

proof fn lemma_pair_inj(a0: u8, a1: u8, b0: u8, b1: u8)
    requires
        a0 / 4 == b0 / 4,
        (a0 % 4) * 16 + a1 / 16 == (b0 % 4) * 16 + b1 / 16,
        (a1 % 16) * 4 == (b1 % 16) * 4,
    ensures
        a0 == b0 && a1 == b1,
{
    assert(a0 == b0 && a1 == b1) by (bit_vector)
        requires
            a0 / 4 == b0 / 4,
            (a0 % 4) * 16 + a1 / 16 == (b0 % 4) * 16 + b1 / 16,
            (a1 % 16) * 4 == (b1 % 16) * 4,
    ;
}

proof fn lemma_single_inj(a0: u8, b0: u8)
    requires
        a0 / 4 == b0 / 4,
        (a0 % 4) * 16 == (b0 % 4) * 16,
    ensures
        a0 == b0,
{
    assert(a0 == b0) by (bit_vector)
        requires
            a0 / 4 == b0 / 4,
            (a0 % 4) * 16 == (b0 % 4) * 16,
    ;
}

/// Different bytes have different encodings.
pub proof fn lemma_base64_url_injective(a: Seq<u8>, b: Seq<u8>)
    requires
        base64_url(a) == base64_url(b),
    ensures
        a == b,
    decreases a.len(),
{
    lemma_base64_url_shape(a);
    lemma_base64_url_shape(b);
    if a.len() < b.len() {
        assert((4 * a.len() + 2) / 3 < (4 * b.len() + 2) / 3);
    } else if b.len() < a.len() {
        assert((4 * b.len() + 2) / 3 < (4 * a.len() + 2) / 3);
    }
    assert(a.len() == b.len());
    let ea = base64_url(a);
    if a.len() == 0 {
        assert(a =~= b);
    } else if a.len() == 1 {
        lemma_b64_char_inj(a[0] as int / 4, b[0] as int / 4);
        lemma_b64_char_inj((a[0] as int % 4) * 16, (b[0] as int % 4) * 16);
        lemma_single_inj(a[0], b[0]);
        assert(a =~= b);
    } else if a.len() == 2 {
        lemma_b64_char_inj(a[0] as int / 4, b[0] as int / 4);
        lemma_b64_char_inj((a[0] as int % 4) * 16 + a[1] as int / 16, (b[0] as int % 4) * 16 + b[1] as int / 16);
        lemma_b64_char_inj((a[1] as int % 16) * 4, (b[1] as int % 16) * 4);
        lemma_pair_inj(a[0], a[1], b[0], b[1]);
        assert(a =~= b);
    } else {
        assert(ea[0] == base64_url(b)[0]);
        lemma_b64_char_inj(a[0] as int / 4, b[0] as int / 4);
        assert(ea[1] == base64_url(b)[1]);
        lemma_b64_char_inj((a[0] as int % 4) * 16 + a[1] as int / 16, (b[0] as int % 4) * 16 + b[1] as int / 16);
        assert(ea[2] == base64_url(b)[2]);
        lemma_b64_char_inj((a[1] as int % 16) * 4 + a[2] as int / 64, (b[1] as int % 16) * 4 + b[2] as int / 64);
        assert(ea[3] == base64_url(b)[3]);
        lemma_b64_char_inj(a[2] as int % 64, b[2] as int % 64);
        lemma_group_inj(a[0], a[1], a[2], b[0], b[1], b[2]);
        assert(base64_url(a.skip(3)) =~= ea.skip(4));
        assert(base64_url(b.skip(3)) =~= base64_url(b).skip(4));
        lemma_base64_url_injective(a.skip(3), b.skip(3));
        assert forall|i: int| 0 <= i < a.len() implies a[i] == b[i] by {
            if i >= 3 {
                assert(a[i] == a.skip(3)[i - 3]);
                assert(b[i] == b.skip(3)[i - 3]);
            }
        }
        assert(a =~= b);
    }
}

/// The bytes that a URL-safe base64 text without padding decodes to: those
/// whose encoding it is, if any (`lemma_base64_url_injective`: at most one).
pub open spec fn base64_url_decoded(text: Seq<char>) -> Option<Seq<u8>> {
    if exists|v: Seq<u8>| #[trigger] base64_url(v) == text {
        Some(choose|v: Seq<u8>| #[trigger] base64_url(v) == text)
    } else {
        None
    }
}

/// Decoding the encoding of some bytes gives them back.
pub proof fn lemma_decode_encode(v: Seq<u8>)
    ensures
        base64_url_decoded(base64_url(v)) == Some(v),
{
    let w = choose|w: Seq<u8>| #[trigger] base64_url(w) == base64_url(v);
    lemma_base64_url_injective(w, v);
}

/// The SHA-256 digest of some bytes.
pub uninterp spec fn sha256(bytes: Seq<u8>) -> Seq<u8>;

/// `Engine::encode` of base64's `URL_SAFE_NO_PAD`: the URL-safe alphabet
/// without padding, as `base64_url` states it. The length must fit in
/// `usize`, or the call panics.
#[verifier::external_body]
fn b64_encode(bytes: &[u8]) -> (r: String)
    requires
        bytes@.len() / 3 * 4 + 4 <= usize::MAX,
    ensures
        r@ == base64_url(bytes@),
{
    base64::engine::general_purpose::URL_SAFE_NO_PAD.encode(bytes)
}

/// `Engine::decode` of base64's `URL_SAFE_NO_PAD`, with the error mapped to
/// `None`: the engine accepts exactly the canonical unpadded encodings (it
/// refuses padding, other characters, impossible lengths and non-zero unused
/// bits), so it gives the bytes whose encoding the text is, and fails when no
/// bytes have it as their encoding.
#[verifier::external_body]
fn b64_decode(text: &str) -> (r: Option<Vec<u8>>)
    ensures
        match r {
            Some(v) => base64_url(v@) == text@,
            None => forall|v: Seq<u8>| #[trigger] base64_url(v) != text@,
        },
{
    match base64::engine::general_purpose::URL_SAFE_NO_PAD.decode(text) {
        Ok(v) => Some(v),
        Err(_) => None,
    }
}

/// `Sha256::digest` of sha2: the 32-byte digest, by name.
#[verifier::external_body]
fn sha256_digest(data: &[u8]) -> (r: Vec<u8>)
    ensures
        r@ == sha256(data@),
        r@.len() == 32,
{
    sha2::Sha256::digest(data).to_vec()
}

/// `RngCore::fill_bytes` on rand's `thread_rng()`: `n` random bytes. Nothing
/// is claimed of their values. (The thread generator panics if the operating
/// system cannot seed it; no argument decides that.)
#[verifier::external_body]
fn random_bytes(n: usize) -> (r: Vec<u8>)
    ensures
        r@.len() == n,
{
    let mut v = vec![0u8; n];
    rand::thread_rng().fill_bytes(&mut v);
    v
}

/// An ASCII letter, digit, `-`, `.`, `_` or `~`: the bytes URL encoding keeps.
pub open spec fn is_unreserved(b: u8) -> bool {
    (48 <= b && b <= 57) || (65 <= b && b <= 90) || (97 <= b && b <= 122) || b == 45 || b == 46
        || b == 95 || b == 126
}

/// An upper-case hexadecimal digit.
pub open spec fn hex_upper(d: u8) -> char {
    if d < 10 {
        (48 + d) as char
    } else {
        (55 + d) as char
    }
}

/// Percent-encoding of bytes: unreserved bytes as themselves, any other as
/// `%` and two upper-case hexadecimal digits.
pub open spec fn percent_encoded(bytes: Seq<u8>) -> Seq<char>
    decreases bytes.len(),
{
    if bytes.len() == 0 {
        Seq::empty()
    } else {
        let b = bytes.last();
        percent_encoded(bytes.drop_last()) + if is_unreserved(b) {
            seq![b as char]
        } else {
            seq!['%', hex_upper(b / 16), hex_upper(b % 16)]
        }
    }
}

/// `urlencoding::encode`: every byte of the UTF-8 text percent-encoded except
/// ASCII letters, digits, `-`, `.`, `_` and `~` (its documentation, and
/// `to_hex_digit` for the upper-case digits).
#[verifier::external_body]
fn url_encode(s: &str) -> (r: String)
    ensures
        r@ == percent_encoded(encode_utf8(s@)),
{
    urlencoding::encode(s).into_owned()
}

/// `std::str::from_utf8`, owned: the text when the bytes are UTF-8.
#[verifier::external_body]
fn utf8_text(bytes: &[u8]) -> (r: Option<String>)
    ensures
        match r {
            Some(s) => valid_utf8(bytes@) && s@ == decode_utf8(bytes@),
            None => !valid_utf8(bytes@),
        },
{
    match std::str::from_utf8(bytes) {
        Ok(s) => Some(String::from(s)),
        Err(_) => None,
    }
}

// ---------------------------------------------------------------------------
// PKCE
// ---------------------------------------------------------------------------

/// A fresh PKCE code verifier: 32 random bytes in URL-safe base64, 43
/// characters.
pub fn generate_code_verifier() -> (v: String)
    ensures
        exists|b: Seq<u8>| b.len() == 32 && v@ == base64_url(b),
        v@.len() == 43,
        forall|i: int| 0 <= i < v@.len() ==> is_url_safe_b64(#[trigger] v@[i]),
{
    let bytes = random_bytes(32);
    proof {
        lemma_base64_url_shape(bytes@);
    }
    b64_encode(bytes.as_slice())
}

/// The S256 challenge of a verifier: its SHA-256 digest in URL-safe base64,
/// 43 characters.
pub fn compute_code_challenge(verifier: &str) -> (c: String)
    ensures
        c@ == base64_url(sha256(encode_utf8(verifier@))),
        c@.len() == 43,
        forall|i: int| 0 <= i < c@.len() ==> is_url_safe_b64(#[trigger] c@[i]),
{
    let digest = sha256_digest(verifier.as_bytes());
    proof {
        lemma_base64_url_shape(digest@);
    }
    b64_encode(digest.as_slice())
}

/// A fresh `state` value: 16 random bytes in URL-safe base64, 22 characters.
pub fn random_state() -> (s: String)
    ensures
        exists|b: Seq<u8>| b.len() == 16 && s@ == base64_url(b),
        s@.len() == 22,
        forall|i: int| 0 <= i < s@.len() ==> is_url_safe_b64(#[trigger] s@[i]),
{
    let bytes = random_bytes(16);
    proof {
        lemma_base64_url_shape(bytes@);
    }
    b64_encode(bytes.as_slice())
}

// ---------------------------------------------------------------------------
// The authorization URL
// ---------------------------------------------------------------------------

/// The scopes the tool asks for, separated by spaces.
pub open spec fn required_scopes() -> Seq<char> {
    "esi-skills.read_skills.v1 esi-skills.read_skillqueue.v1 esi-characters.read_attributes.v1"@
}

pub open spec fn url_part(s: Seq<char>) -> Seq<char> {
    percent_encoded(encode_utf8(s))
}

/// The SSO authorization URL for these values.
pub open spec fn authorize_url(
    client_id: Seq<char>,
    challenge: Seq<char>,
    redirect_uri: Seq<char>,
    state: Seq<char>,
) -> Seq<char> {
    "https://login.eveonline.com/v2/oauth/authorize?response_type=code&client_id="@ + url_part(
        client_id,
    ) + "&redirect_uri="@ + url_part(redirect_uri) + "&state="@ + url_part(state) + "&scope="@
        + url_part(required_scopes()) + "&code_challenge="@ + url_part(challenge)
        + "&code_challenge_method=S256"@
}

fn push_str_part(v: &mut Vec<char>, s: &str)
    ensures
        final(v)@ == old(v)@ + s@,
{
    extend_str(v, s);
}

/// The SSO authorization URL with a given `state`.
pub fn authorize_url_with_state(
    client_id: &str,
    challenge: &str,
    redirect_uri: &str,
    state: &str,
) -> (u: String)
    ensures
        u@ == authorize_url(client_id@, challenge@, redirect_uri@, state@),
{
    let mut v: Vec<char> = Vec::new();
    push_str_part(&mut v, "https://login.eveonline.com/v2/oauth/authorize?response_type=code&client_id=");
    push_str_part(&mut v, url_encode(client_id).as_str());
    push_str_part(&mut v, "&redirect_uri=");
    push_str_part(&mut v, url_encode(redirect_uri).as_str());
    push_str_part(&mut v, "&state=");
    push_str_part(&mut v, url_encode(state).as_str());
    push_str_part(&mut v, "&scope=");
    push_str_part(
        &mut v,
        url_encode(
            "esi-skills.read_skills.v1 esi-skills.read_skillqueue.v1 esi-characters.read_attributes.v1",
        ).as_str(),
    );
    push_str_part(&mut v, "&code_challenge=");
    push_str_part(&mut v, url_encode(challenge).as_str());
    push_str_part(&mut v, "&code_challenge_method=S256");
    string_from(v.as_slice())
}

/// The SSO authorization URL with a fresh random `state`.
pub fn build_authorize_url(client_id: &str, challenge: &str, redirect_uri: &str) -> (u: String)
    ensures
        exists|st: Seq<char>|
            st.len() == 22 && (forall|i: int| 0 <= i < st.len() ==> is_url_safe_b64(#[trigger] st[i]))
                && u@ == authorize_url(client_id@, challenge@, redirect_uri@, st),
{
    let state = random_state();
    authorize_url_with_state(client_id, challenge, redirect_uri, state.as_str())
}

// ---------------------------------------------------------------------------
// Access tokens
// ---------------------------------------------------------------------------

/// The payload text of a JWT: its second `.`-separated part, base64-decoded,
/// when that gives UTF-8.
pub open spec fn jwt_payload(token: Seq<char>) -> Option<Seq<char>> {
    let parts = split(token, '.');
    if parts.len() < 2 {
        None
    } else {
        match base64_url_decoded(parts[1]) {
            None => None,
            Some(b) => if valid_utf8(b) {
                Some(decode_utf8(b))
            } else {
                None
            },
        }
    }
}

/// The JSON text of an access token's payload, if it has one (the signature
/// is not checked).
pub fn jwt_payload_text(token: &str) -> (r: Option<String>)
    ensures
        match jwt_payload(token@) {
            Some(t) => r matches Some(s) && s@ == t,
            None => r is None,
        },
{
    let c = chars_of(token);
    let parts = split_chars(c.as_slice(), '.');
    if parts.len() < 2 {
        return None;
    }
    let payload = string_from(parts[1].as_slice());
    let bytes = match b64_decode(payload.as_str()) {
        Some(b) => b,
        None => return None,
    };
    proof {
        lemma_decode_encode(bytes@);
    }
    utf8_text(bytes.as_slice())
}

} // verus!
