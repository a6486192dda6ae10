//! Sign-in: the OAuth configuration, signed session tokens and the session
//! cookie, the run mode, and the per-user file names.

use vstd::prelude::*;
use vstd::utf8::{encode_utf8, encode_utf8_decode_utf8};
use crate::text::{
    strings_view, to_chars, string_from_chars, trim, trim_ws, lower, to_lower, has_prefix,
    split_char, split_on, slice_chars, push_all, eq_str, find, find_seq, occurs_at,
    lemma_find_seq, lemma_first_occurrence_exists,
};
use crate::urls::{url_encode, url_encoded};
use crate::strmap::StrMap;

verus! {

broadcast use vstd::utf8::encode_utf8_decode_utf8;

// ------------------------------------------------------------------ digests and encodings

/// SHA-256 of a byte sequence, as the `sha2` crate computes it.
pub uninterp spec fn sha256_spec(data: Seq<u8>) -> Seq<u8>;

/// `sha2::Sha256::digest`: the 32-byte SHA-256 digest of `data`.
#[verifier::external_body]
fn sha256_digest(data: &[u8]) -> (d: Vec<u8>)
    ensures
        d@ == sha256_spec(data@),
        d@.len() == 32,
{
    <sha2::Sha256 as sha2::Digest>::digest(data).to_vec()
}

/// The bytes that URL-safe unpadded base64 decodes `input` to, if any.
pub uninterp spec fn b64url_decode_spec(input: Seq<u8>) -> Option<Seq<u8>>;

/// The URL-safe base64 alphabet.
pub open spec fn b64url_char(c: char) -> bool {
    ('A' <= c && c <= 'Z') || ('a' <= c && c <= 'z') || ('0' <= c && c <= '9') || c == '-' || c
        == '_'
}

/// `base64::engine::general_purpose::URL_SAFE_NO_PAD.decode`: the decoded
/// bytes, or `None` when `input` is not valid unpadded URL-safe base64.
#[verifier::external_body]
fn b64url_decode(input: &[u8]) -> (r: Option<Vec<u8>>)
    ensures
        r matches Some(v) ==> b64url_decode_spec(input@) == Some(v@),
        r is None ==> b64url_decode_spec(input@) is None,
{
    base64::Engine::decode(&base64::engine::general_purpose::URL_SAFE_NO_PAD, input).ok()
}

/// The text that URL-safe unpadded base64 encodes `input` to.
pub uninterp spec fn b64url_encode_spec(input: Seq<u8>) -> Seq<char>;

/// `base64::engine::general_purpose::URL_SAFE_NO_PAD.encode`. Besides
/// naming the encoding, the contract claims what the crate documents: the
/// text uses only the URL-safe alphabet (`A-Z a-z 0-9 - _`, no padding) and
/// decodes back to `input`. The input bound keeps the crate's length
/// computation from overflowing.
#[verifier::external_body]
fn b64url_encode(input: &[u8]) -> (r: String)
    requires
        input@.len() <= usize::MAX / 2,
    ensures
        r@ == b64url_encode_spec(input@),
        forall|i: int| 0 <= i < r@.len() ==> b64url_char(#[trigger] r@[i]),
        b64url_decode_spec(encode_utf8(r@)) == Some(input@),
{
    base64::Engine::encode(&base64::engine::general_purpose::URL_SAFE_NO_PAD, input)
}

/// A lower-case hexadecimal digit for `d < 16`.
pub open spec fn hex_digit(d: int) -> char {
    if d < 10 {
        ((d + 48) as u32) as char
    } else {
        ((d + 87) as u32) as char
    }
}

/// Bytes as lower-case hexadecimal, two digits each.
pub open spec fn hex_spec(bytes: Seq<u8>) -> Seq<char>
    decreases bytes.len(),
{
    if bytes.len() == 0 {
        Seq::empty()
    } else {
        hex_spec(bytes.drop_last()) + seq![
            hex_digit((bytes.last() / 16) as int),
            hex_digit((bytes.last() % 16) as int),
        ]
    }
}

fn hex_digit_exec(d: u8) -> (c: char)
    requires
        d < 16,
    ensures
        c == hex_digit(d as int),
{
    if d < 10 {
        let b: u8 = d + 48;
        b as char
    } else {
        let b: u8 = d + 87;
        b as char
    }
}

/// Lower-case hexadecimal of `bytes` (`{:02x}` for each byte).
pub fn hex(bytes: &[u8]) -> (r: Vec<char>)
    ensures
        r@ == hex_spec(bytes@),
        r@.len() == 2 * bytes@.len(),
{
    let mut r: Vec<char> = Vec::new();
    let mut i: usize = 0;
    while i < bytes.len()
        invariant
            i <= bytes.len(),
            r@ == hex_spec(bytes@.take(i as int)),
            r@.len() == 2 * i,
        decreases bytes.len() - i,
    {
        assert(bytes@.take(i + 1).drop_last() =~= bytes@.take(i as int));
        assert(bytes@.take(i + 1).last() == bytes@[i as int]);
        let b = bytes[i];
        let ghost before = r@;
        r.push(hex_digit_exec(b / 16));
        r.push(hex_digit_exec(b % 16));
        assert(r@ =~= before + seq![hex_digit((b / 16) as int), hex_digit((b % 16) as int)]);
        i = i + 1;
    }
    assert(bytes@.take(bytes.len() as int) =~= bytes@);
    r
}

fn bytes_concat(a: &[u8], b: &[u8]) -> (r: Vec<u8>)
    ensures
        r@ == a@ + b@,
{
    let mut r: Vec<u8> = Vec::new();
    let mut i: usize = 0;
    while i < a.len()
        invariant
            i <= a.len(),
            r@ == a@.take(i as int),
        decreases a.len() - i,
    {
        r.push(a[i]);
        i = i + 1;
    }
    let mut j: usize = 0;
    assert(a@.take(a.len() as int) =~= a@);
    while j < b.len()
        invariant
            j <= b.len(),
            r@ == a@ + b@.take(j as int),
        decreases b.len() - j,
    {
        r.push(b[j]);
        j = j + 1;
        assert(a@ + b@.take(j as int) =~= (a@ + b@.take(j - 1)).push(b@[j - 1]));
    }
    assert(b@.take(b.len() as int) =~= b@);
    r
}

/// The first 16 hex digits of the SHA-256 of `s`.
pub open spec fn short_hash_spec(s: Seq<char>) -> Seq<char> {
    hex_spec(sha256_spec(encode_utf8(s))).take(16)
}

/// A short stable digest of a user id, for file names.
pub fn short_hash(s: &str) -> (r: String)
    ensures
        r@ == short_hash_spec(s@),
        r@.len() == 16,
{
    let d = sha256_digest(s.as_bytes());
    let h = hex(&d);
    let t = slice_chars(&h, 0, 16);
    string_from_chars(&t)
}

/// The file of a user's history or favorites: `<kind>_<hash>.json` for a
/// signed-in user, `<kind>.json` otherwise.
pub open spec fn scoped_file_name_spec(kind: Seq<char>, uid: Option<Seq<char>>) -> Seq<char> {
    match uid {
        Some(u) => kind + "_"@ + short_hash_spec(u) + ".json"@,
        None => kind + ".json"@,
    }
}

pub fn scoped_file_name(kind: &str, uid: Option<&str>) -> (r: String)
    ensures
        r@ == scoped_file_name_spec(kind@, crate::urls::opt_str_view(uid)),
{
    let mut v = to_chars(kind);
    match uid {
        Some(u) => {
            push_all(&mut v, &to_chars("_"));
            let h = short_hash(u);
            push_all(&mut v, &to_chars(h.as_str()));
            push_all(&mut v, &to_chars(".json"));
        },
        None => {
            push_all(&mut v, &to_chars(".json"));
        },
    }
    string_from_chars(&v)
}

// ------------------------------------------------------------------ session tokens

/// The key used when the configured secret is shorter than 16 bytes.
pub open spec fn fallback_secret() -> Seq<char> {
    "moviebox-dev-fallback-secret-please-set-SESSION_SECRET"@
}

/// The secret the tokens are keyed with.
pub open spec fn effective_secret(secret: Seq<char>) -> Seq<char> {
    if encode_utf8(secret).len() >= 16 {
        secret
    } else {
        fallback_secret()
    }
}

/// The signature of a payload: hex SHA-256 of `secret . payload`.
pub open spec fn signature_spec(secret: Seq<char>, payload: Seq<char>) -> Seq<char> {
    hex_spec(sha256_spec(encode_utf8(effective_secret(secret)) + seq![46u8] + encode_utf8(payload)))
}

/// `payload.signature`.
pub open spec fn session_token_spec(secret: Seq<char>, payload: Seq<char>) -> Seq<char> {
    payload + "."@ + signature_spec(secret, payload)
}

fn signature(secret: &str, payload_b64: &str) -> (r: Vec<char>)
    ensures
        r@ == signature_spec(secret@, payload_b64@),
        r@.len() == 64,
{
    let eff: &str = if secret.as_bytes().len() >= 16 {
        secret
    } else {
        "moviebox-dev-fallback-secret-please-set-SESSION_SECRET"
    };
    let dot: Vec<u8> = vec![46u8];
    assert(dot@ =~= seq![46u8]);
    assert(eff@ == effective_secret(secret@));
    let data = bytes_concat(&bytes_concat(eff.as_bytes(), &dot), payload_b64.as_bytes());
    assert(data@ == encode_utf8(effective_secret(secret@)) + seq![46u8] + encode_utf8(payload_b64@));
    hex(&sha256_digest(&data))
}

/// Signs a base64 payload with the session secret.
pub fn session_token(secret: &str, payload_b64: &str) -> (r: String)
    ensures
        r@ == session_token_spec(secret@, payload_b64@),
{
    let mut v = to_chars(payload_b64);
    push_all(&mut v, &to_chars("."));
    push_all(&mut v, &signature(secret, payload_b64));
    string_from_chars(&v)
}

/// The index of the first `.` (`str::split_once('.')`).
pub open spec fn first_dot(s: Seq<char>) -> Option<int> {
    find_seq(s, seq!['.'])
}

/// The payload bytes of a token whose signature matches, when the payload is
/// valid base64.
pub open spec fn verified_payload_spec(secret: Seq<char>, token: Seq<char>) -> Option<Seq<u8>> {
    match first_dot(token) {
        None => None,
        Some(k) => {
            let payload = token.take(k);
            let sig = token.skip(k + 1);
            if sig == signature_spec(secret, payload) {
                b64url_decode_spec(encode_utf8(payload))
            } else {
                None
            }
        },
    }
}

/// Whether two byte sequences are equal, looking at every byte whatever the
/// outcome (equal lengths assumed checked first).
fn bytes_equal_all(a: &[u8], b: &[u8]) -> (r: bool)
    ensures
        r == (a@ == b@),
{
    if a.len() != b.len() {
        return false;
    }
    let mut diff: u8 = 0;
    let mut i: usize = 0;
    while i < a.len()
        invariant
            a.len() == b.len(),
            i <= a.len(),
            (diff == 0) == (forall|k: int| 0 <= k < i ==> a@[k] == b@[k]),
        decreases a.len() - i,
    {
        let x = a[i];
        let y = b[i];
        let nd = diff | (x ^ y);
        assert((nd == 0) == (diff == 0 && x == y)) by (bit_vector)
            requires
                nd == diff | (x ^ y),
        ;
        diff = nd;
        i = i + 1;
    }
    assert((diff == 0) ==> a@ =~= b@);
    diff == 0
}

/// Whether `serde_json` reads the bytes as a JSON value.
pub uninterp spec fn json_valid_spec(bytes: Seq<u8>) -> bool;

/// `serde_json::from_slice::<serde_json::Value>`: whether the bytes parse as
/// JSON.
#[verifier::external_body]
fn json_valid(bytes: &[u8]) -> (r: bool)
    ensures
        r == json_valid_spec(bytes@),
{
    serde_json::from_slice::<serde_json::Value>(bytes).is_ok()
}

/// What a session token is worth: its payload bytes when the signature
/// matches, the payload decodes from base64 and the bytes are JSON.
pub open spec fn verify_result_spec(secret: Seq<char>, token: Seq<char>) -> Option<Seq<u8>> {
    match verified_payload_spec(secret, token) {
        Some(p) => if json_valid_spec(p) {
            Some(p)
        } else {
            None
        },
        None => None,
    }
}

/// Checks a session token's signature (comparing every byte), decodes its
/// payload and checks that it is JSON; `None` for a malformed, forged or
/// undecodable token.
pub fn verify_session_token(secret: &str, token: &str) -> (r: Option<Vec<u8>>)
    ensures
        r matches Some(v) ==> verify_result_spec(secret@, token@) == Some(v@),
        r is None ==> verify_result_spec(secret@, token@) is None,
{
    let t = to_chars(token);
    let dot: Vec<char> = vec!['.'];
    assert(dot@ =~= seq!['.']);
    let k = match find(&t, &dot) {
        Some(k) => k,
        None => {
            return None;
        },
    };
    assert(occurs_at(t@, dot@, k as int));
    let tl = t.len();
    let payload: &str = token.substring_char(0, k);
    let sig: &str = token.substring_char(k + 1, tl);
    let expected = signature(secret, payload);
    let expected_s = string_from_chars(&expected);
    let same = bytes_equal_all(expected_s.as_str().as_bytes(), sig.as_bytes());
    proof {
        if same {
            assert(encode_utf8(expected@) == encode_utf8(sig@));
            assert(vstd::utf8::decode_utf8(encode_utf8(expected@)) == expected@);
            assert(vstd::utf8::decode_utf8(encode_utf8(sig@)) == sig@);
        }
    }
    if !same {
        return None;
    }
    match b64url_decode(payload.as_bytes()) {
        Some(bytes) => if json_valid(bytes.as_slice()) {
            Some(bytes)
        } else {
            None
        },
        None => None,
    }
}

/// Issues a session token carrying `payload` (the session as JSON bytes).
pub fn issue_session_token(secret: &str, payload: &[u8]) -> (r: String)
    requires
        payload@.len() <= usize::MAX / 2,
    ensures
        r@ == session_token_spec(secret@, b64url_encode_spec(payload@)),
        b64url_decode_spec(encode_utf8(b64url_encode_spec(payload@))) == Some(payload@),
        forall|i: int|
            0 <= i < b64url_encode_spec(payload@).len() ==> b64url_char(
                #[trigger] b64url_encode_spec(payload@)[i],
            ),
        verified_payload_spec(secret@, r@) == Some(payload@),
        json_valid_spec(payload@) ==> verify_result_spec(secret@, r@) == Some(payload@),
        !json_valid_spec(payload@) ==> verify_result_spec(secret@, r@) is None,
{
    let p = b64url_encode(payload);
    proof {
        lemma_issued_token_verifies(secret@, p@, payload@);
    }
    session_token(secret, p.as_str())
}

/// A token issued with a secret verifies with that secret and gives back
/// the payload it carries.
pub proof fn lemma_issued_token_verifies(secret: Seq<char>, p: Seq<char>, payload: Seq<u8>)
    requires
        b64url_decode_spec(encode_utf8(p)) == Some(payload),
        forall|i: int| 0 <= i < p.len() ==> b64url_char(#[trigger] p[i]),
    ensures
        verified_payload_spec(secret, session_token_spec(secret, p)) == Some(payload),
{
    let t = session_token_spec(secret, p);
    reveal_strlit(".");
    assert(t[p.len() as int] == '.');
    assert(t.subrange(p.len() as int, p.len() + 1int) =~= seq!['.']);
    assert forall|j: int| 0 <= j < p.len() implies !occurs_at(t, seq!['.'], j) by {
        assert(t[j] == p[j]);
        assert(b64url_char(p[j]));
        if occurs_at(t, seq!['.'], j) {
            assert(t.subrange(j, j + 1)[0] == '.');
        }
    }
    lemma_find_seq(t, seq!['.'], p.len() as int);
    assert(t.take(p.len() as int) =~= p);
    assert(t.skip(p.len() + 1int) =~= signature_spec(secret, p));
}

/// The first dot of a token is the one after its payload, whatever follows,
/// when the payload holds no dot.
proof fn lemma_first_dot_after_payload(t: Seq<char>, p: Seq<char>)
    requires
        forall|i: int| 0 <= i < p.len() ==> #[trigger] p[i] != '.',
        p.len() < t.len(),
        t.take(p.len() as int) == p,
        t[p.len() as int] == '.',
    ensures
        first_dot(t) == Some(p.len() as int),
{
    assert(t.subrange(p.len() as int, p.len() + 1int) =~= seq!['.']);
    assert forall|j: int| 0 <= j < p.len() implies !occurs_at(t, seq!['.'], j) by {
        assert(t[j] == t.take(p.len() as int)[j]);
        assert(p[j] != '.');
        if occurs_at(t, seq!['.'], j) {
            assert(t.subrange(j, j + 1)[0] == '.');
        }
    }
    lemma_find_seq(t, seq!['.'], p.len() as int);
}

/// Secrets with the same effective key sign alike: every secret shorter than
/// 16 bytes signs with the built-in fallback key.
pub proof fn lemma_same_key_same_token(s1: Seq<char>, s2: Seq<char>, p: Seq<char>)
    requires
        effective_secret(s1) == effective_secret(s2),
    ensures
        session_token_spec(s1, p) == session_token_spec(s2, p),
{
}

/// A token whose payload holds a dot is refused under every key: the text
/// after its first dot then holds a dot, which no hexadecimal signature does.
proof fn lemma_dotted_payload_refused(secret: Seq<char>, t: Seq<char>, p: Seq<char>, j: int)
    requires
        0 <= j < p.len(),
        p[j] == '.',
        p.len() < t.len(),
        t.take(p.len() as int) == p,
        t[p.len() as int] == '.',
    ensures
        verified_payload_spec(secret, t) is None,
{
    assert(t[j] == t.take(p.len() as int)[j]);
    assert(t.subrange(j, j + 1) =~= seq!['.']);
    lemma_first_occurrence_exists(t, seq!['.'], j);
    match first_dot(t) {
        Some(k) => {
            let sig = t.skip(k + 1);
            let expected = signature_spec(secret, t.take(k));
            assert(sig[p.len() - k - 1] == '.');
            lemma_hex_no_dot(
                sha256_spec(encode_utf8(effective_secret(secret)) + seq![46u8] + encode_utf8(t.take(k))),
            );
            if sig == expected {
                assert(expected[p.len() - k - 1] != '.');
            }
        },
        None => {},
    }
}

/// A token whose signature was altered in one character is refused.
pub proof fn lemma_altered_signature_refused(secret: Seq<char>, p: Seq<char>, i: int, c: char)
    requires
        p.len() < i < session_token_spec(secret, p).len(),
        c != session_token_spec(secret, p)[i],
    ensures
        verified_payload_spec(secret, session_token_spec(secret, p).update(i, c)) is None,
        verify_result_spec(secret, session_token_spec(secret, p).update(i, c)) is None,
{
    let t = session_token_spec(secret, p);
    let t2 = t.update(i, c);
    reveal_strlit(".");
    assert(t2.take(p.len() as int) =~= p);
    assert(t2[p.len() as int] == '.');
    if exists|j: int| 0 <= j < p.len() && p[j] == '.' {
        let j = choose|j: int| 0 <= j < p.len() && p[j] == '.';
        lemma_dotted_payload_refused(secret, t2, p, j);
    } else {
        lemma_first_dot_after_payload(t2, p);
        let sig = signature_spec(secret, p);
        assert(t.skip(p.len() + 1int) =~= sig);
        assert(t2.skip(p.len() + 1int)[i - p.len() - 1] == c);
        assert(sig[i - p.len() - 1] == t[i]);
    }
}

/// No hexadecimal text holds a dot.
proof fn lemma_hex_no_dot(b: Seq<u8>)
    ensures
        forall|i: int| 0 <= i < hex_spec(b).len() ==> #[trigger] hex_spec(b)[i] != '.',
    decreases b.len(),
{
    if b.len() > 0 {
        lemma_hex_no_dot(b.drop_last());
        let d1 = (b.last() / 16) as int;
        let d2 = (b.last() % 16) as int;
        assert(hex_digit(d1) as u32 == if d1 < 10 { d1 + 48 } else { d1 + 87 });
        assert(hex_digit(d2) as u32 == if d2 < 10 { d2 + 48 } else { d2 + 87 });
        let h = hex_spec(b);
        let h0 = hex_spec(b.drop_last());
        assert forall|i: int| 0 <= i < h.len() implies #[trigger] h[i] != '.' by {
            if i < h0.len() {
                assert(h[i] == h0[i]);
            }
        }
    }
}

pub proof fn lemma_hex_len(b: Seq<u8>)
    ensures
        hex_spec(b).len() == 2 * b.len(),
    decreases b.len(),
{
    if b.len() > 0 {
        lemma_hex_len(b.drop_last());
    }
}

proof fn lemma_hex_digit_injective(d1: int, d2: int)
    requires
        0 <= d1 < 16,
        0 <= d2 < 16,
        hex_digit(d1) == hex_digit(d2),
    ensures
        d1 == d2,
{
    assert(hex_digit(d1) as u32 == if d1 < 10 { d1 + 48 } else { d1 + 87 });
    assert(hex_digit(d2) as u32 == if d2 < 10 { d2 + 48 } else { d2 + 87 });
}

/// Different bytes have different hexadecimal texts.
pub proof fn lemma_hex_injective(a: Seq<u8>, b: Seq<u8>)
    requires
        hex_spec(a) == hex_spec(b),
    ensures
        a == b,
    decreases a.len(),
{
    lemma_hex_len(a);
    lemma_hex_len(b);
    if a.len() > 0 {
        let ha = hex_spec(a);
        let n = ha.len();
        lemma_hex_len(a.drop_last());
        lemma_hex_len(b.drop_last());
        assert(ha[n - 2] == hex_digit((a.last() / 16) as int));
        assert(ha[n - 1] == hex_digit((a.last() % 16) as int));
        assert(hex_spec(b)[n - 2] == hex_digit((b.last() / 16) as int));
        assert(hex_spec(b)[n - 1] == hex_digit((b.last() % 16) as int));
        lemma_hex_digit_injective((a.last() / 16) as int, (b.last() / 16) as int);
        lemma_hex_digit_injective((a.last() % 16) as int, (b.last() % 16) as int);
        assert(hex_spec(a.drop_last()) =~= ha.take(n - 2));
        assert(hex_spec(b.drop_last()) =~= hex_spec(b).take(n - 2));
        lemma_hex_injective(a.drop_last(), b.drop_last());
        assert(a =~= a.drop_last().push(a.last()));
        assert(b =~= b.drop_last().push(b.last()));
    }
}

/// The bytes a signature hashes: the effective key, a dot, the payload.
pub open spec fn signed_bytes(secret: Seq<char>, payload: Seq<char>) -> Seq<u8> {
    encode_utf8(effective_secret(secret)) + seq![46u8] + encode_utf8(payload)
}

/// Unless SHA-256 collides on the two signed texts, a token signed with one
/// effective key is refused under any other.
pub proof fn lemma_other_key_refused(s1: Seq<char>, s2: Seq<char>, p: Seq<char>)
    requires
        signed_bytes(s1, p) != signed_bytes(s2, p) ==> sha256_spec(signed_bytes(s1, p)) != sha256_spec(
            signed_bytes(s2, p),
        ),
        effective_secret(s1) != effective_secret(s2),
    ensures
        verified_payload_spec(s2, session_token_spec(s1, p)) is None,
        verify_result_spec(s2, session_token_spec(s1, p)) is None,
{
    let t = session_token_spec(s1, p);
    reveal_strlit(".");
    assert(t.take(p.len() as int) =~= p);
    assert(t[p.len() as int] == '.');
    if exists|j: int| 0 <= j < p.len() && p[j] == '.' {
        let j = choose|j: int| 0 <= j < p.len() && p[j] == '.';
        lemma_dotted_payload_refused(s2, t, p, j);
    } else {
        lemma_first_dot_after_payload(t, p);
        assert(t.skip(p.len() + 1int) =~= signature_spec(s1, p));
        let e1 = encode_utf8(effective_secret(s1));
        let e2 = encode_utf8(effective_secret(s2));
        let x = e1 + seq![46u8] + encode_utf8(p);
        let y = e2 + seq![46u8] + encode_utf8(p);
        if signature_spec(s1, p) == signature_spec(s2, p) {
            assert(x == signed_bytes(s1, p));
            assert(y == signed_bytes(s2, p));
            lemma_hex_injective(sha256_spec(x), sha256_spec(y));
            assert(x == y);
            assert(x.len() == e1.len() + 1 + encode_utf8(p).len());
            assert(y.len() == e2.len() + 1 + encode_utf8(p).len());
            assert(e1.len() == e2.len());
            assert(e1 =~= x.take(e1.len() as int));
            assert(e2 =~= y.take(e2.len() as int));
            assert(vstd::utf8::decode_utf8(e1) == effective_secret(s1));
            assert(vstd::utf8::decode_utf8(e2) == effective_secret(s2));
        }
    }
}

// ------------------------------------------------------------------ the session cookie

/// The cookie attribute that carries the session token.
pub open spec fn session_prefix() -> Seq<char> {
    "mb_session="@
}

/// The value of the first `mb_session=` cookie, if any.
pub open spec fn session_cookie_value_spec(cookie: Seq<char>) -> Option<Seq<char>> {
    first_session_value(split_char(cookie, ';'))
}

pub open spec fn first_session_value(parts: Seq<Seq<char>>) -> Option<Seq<char>>
    decreases parts.len(),
{
    if parts.len() == 0 {
        None
    } else if has_prefix(trim(parts[0]), session_prefix()) {
        Some(trim(parts[0]).skip(session_prefix().len() as int))
    } else {
        first_session_value(parts.drop_first())
    }
}

/// The session token of a `Cookie` header: the first `mb_session=` value.
pub fn session_cookie_value(cookie: &str) -> (r: Option<String>)
    ensures
        r matches Some(v) ==> session_cookie_value_spec(cookie@) == Some(v@),
        r is None ==> session_cookie_value_spec(cookie@) is None,
{
    let parts = split_on(&to_chars(cookie), ';');
    let ghost ps = split_char(cookie@, ';');
    let pre = to_chars("mb_session=");
    let mut i: usize = 0;
    assert(ps.skip(0) =~= ps);
    while i < parts.len()
        invariant
            i <= parts.len(),
            parts@.map_values(|x: Vec<char>| x@) == ps,
            ps == split_char(cookie@, ';'),
            pre@ == session_prefix(),
            first_session_value(ps) == first_session_value(ps.skip(i as int)),
        decreases parts.len() - i,
    {
        assert(parts[i as int]@ == ps[i as int]);
        assert(ps.skip(i as int)[0] == ps[i as int]);
        assert(ps.skip(i as int).drop_first() =~= ps.skip(i + 1));
        let t = trim_ws(&parts[i]);
        if crate::text::starts_with(&t, &pre) {
            let v = slice_chars(&t, pre.len(), t.len());
            assert(v@ =~= t@.skip(session_prefix().len() as int));
            return Some(string_from_chars(&v));
        }
        i = i + 1;
    }
    None
}

/// The payload of the session a `Cookie` header carries: that of its first
/// `mb_session=` token, when the token verifies.
pub open spec fn cookie_payload_spec(secret: Seq<char>, cookie: Seq<char>) -> Option<Seq<u8>> {
    match session_cookie_value_spec(cookie) {
        Some(t) => verify_result_spec(secret, t),
        None => None,
    }
}

pub fn cookie_session_payload(secret: &str, cookie: &str) -> (r: Option<Vec<u8>>)
    ensures
        r matches Some(p) ==> cookie_payload_spec(secret@, cookie@) == Some(p@),
        r is None ==> cookie_payload_spec(secret@, cookie@) is None,
{
    match session_cookie_value(cookie) {
        Some(t) => verify_session_token(secret, t.as_str()),
        None => None,
    }
}

/// The field `key` that `serde_json` reads from bytes as a `u64`: present
/// when the bytes are JSON whose value is an object with that field holding
/// a `u64`.
pub uninterp spec fn json_u64_field_spec(bytes: Seq<u8>, key: Seq<char>) -> Option<u64>;

/// `serde_json::from_slice::<serde_json::Value>`, then the field `key` read
/// with `as_u64`.
#[verifier::external_body]
fn json_u64_field(bytes: &[u8], key: &str) -> (r: Option<u64>)
    ensures
        r == json_u64_field_spec(bytes@, key@),
{
    serde_json::from_slice::<serde_json::Value>(bytes).ok()?.get(key)?.as_u64()
}

/// The payload of a request's session while it lasts: the verified payload
/// of its first session cookie, when that carries an expiry not before
/// `now`.
pub open spec fn live_payload_spec(secret: Seq<char>, cookie: Seq<char>, now: u64) -> Option<Seq<u8>> {
    match cookie_payload_spec(secret, cookie) {
        Some(p) => match json_u64_field_spec(p, "exp"@) {
            Some(exp) => if exp >= now {
                Some(p)
            } else {
                None
            },
            None => None,
        },
        None => None,
    }
}

pub fn live_session_payload(secret: &str, cookie: &str, now: u64) -> (r: Option<Vec<u8>>)
    ensures
        r matches Some(p) ==> live_payload_spec(secret@, cookie@, now) == Some(p@),
        r is None ==> live_payload_spec(secret@, cookie@, now) is None,
{
    let p = match cookie_session_payload(secret, cookie) {
        Some(p) => p,
        None => {
            return None;
        },
    };
    match json_u64_field(p.as_slice(), "exp") {
        Some(exp) => if session_live(exp, now) {
            Some(p)
        } else {
            None
        },
        None => None,
    }
}

/// The values of the leading `mb_session=` parts of a `Cookie` header, up to
/// the first part that is not one (the tokens a request may be signed in
/// with).
pub open spec fn leading_session_values(parts: Seq<Seq<char>>) -> Seq<Seq<char>>
    decreases parts.len(),
{
    if parts.len() == 0 || !has_prefix(trim(parts[0]), session_prefix()) {
        Seq::empty()
    } else {
        seq![trim(parts[0]).skip(session_prefix().len() as int)] + leading_session_values(
            parts.drop_first(),
        )
    }
}

/// The values of all `mb_session=` parts of a `Cookie` header.
pub open spec fn all_session_values(parts: Seq<Seq<char>>) -> Seq<Seq<char>>
    decreases parts.len(),
{
    if parts.len() == 0 {
        Seq::empty()
    } else if has_prefix(trim(parts[0]), session_prefix()) {
        seq![trim(parts[0]).skip(session_prefix().len() as int)] + all_session_values(
            parts.drop_first(),
        )
    } else {
        all_session_values(parts.drop_first())
    }
}

fn session_values(cookie: &str, leading_only: bool) -> (r: Vec<String>)
    ensures
        leading_only ==> strings_view(r@) == leading_session_values(split_char(cookie@, ';')),
        !leading_only ==> strings_view(r@) == all_session_values(split_char(cookie@, ';')),
{
    let parts = split_on(&to_chars(cookie), ';');
    let ghost ps = split_char(cookie@, ';');
    let pre = to_chars("mb_session=");
    let ghost target = if leading_only {
        leading_session_values(ps)
    } else {
        all_session_values(ps)
    };
    let mut out: Vec<String> = Vec::new();
    let mut i: usize = 0;
    assert(ps.skip(0) =~= ps);
    assert(strings_view(out@) + (if leading_only {
        leading_session_values(ps.skip(0))
    } else {
        all_session_values(ps.skip(0))
    }) =~= target);
    while i < parts.len()
        invariant
            i <= parts.len(),
            parts@.map_values(|x: Vec<char>| x@) == ps,
            pre@ == session_prefix(),
            ps == split_char(cookie@, ';'),
            target == (if leading_only {
                leading_session_values(ps)
            } else {
                all_session_values(ps)
            }),
            strings_view(out@) + (if leading_only {
                leading_session_values(ps.skip(i as int))
            } else {
                all_session_values(ps.skip(i as int))
            }) == target,
        decreases parts.len() - i,
    {
        assert(parts[i as int]@ == ps[i as int]);
        assert(ps.skip(i as int)[0] == ps[i as int]);
        assert(ps.skip(i as int).drop_first() =~= ps.skip(i + 1));
        let t = trim_ws(&parts[i]);
        if crate::text::starts_with(&t, &pre) {
            let v = slice_chars(&t, pre.len(), t.len());
            assert(v@ =~= t@.skip(session_prefix().len() as int));
            let ghost before = strings_view(out@);
            let vs = string_from_chars(&v);
            let ghost vv = vs@;
            out.push(vs);
            assert(strings_view(out@) =~= before + seq![vv]);
            assert(before + seq![vv] + (if leading_only {
                leading_session_values(ps.skip(i + 1))
            } else {
                all_session_values(ps.skip(i + 1))
            }) =~= before + (seq![vv] + (if leading_only {
                leading_session_values(ps.skip(i + 1))
            } else {
                all_session_values(ps.skip(i + 1))
            })));
        } else if leading_only {
            assert(leading_session_values(ps.skip(i as int)) =~= Seq::<Seq<char>>::empty());
            assert(strings_view(out@) =~= target);
            return out;
        }
        i = i + 1;
    }
    assert(ps.skip(i as int) =~= Seq::<Seq<char>>::empty());
    assert(strings_view(out@) + Seq::<Seq<char>>::empty() =~= strings_view(out@));
    out
}

/// The tokens a request may be signed in with (`mb_session=` parts before
/// the first other part).
pub fn leading_session_tokens(cookie: &str) -> (r: Vec<String>)
    ensures
        strings_view(r@) == leading_session_values(split_char(cookie@, ';')),
{
    session_values(cookie, true)
}

/// All session tokens of a `Cookie` header (all are revoked at sign-out).
pub fn all_session_tokens(cookie: &str) -> (r: Vec<String>)
    ensures
        strings_view(r@) == all_session_values(split_char(cookie@, ';')),
{
    session_values(cookie, false)
}

/// The `Set-Cookie` value that stores a session token for 30 days.
pub open spec fn session_cookie_spec(token: Seq<char>) -> Seq<char> {
    "mb_session="@ + token + "; HttpOnly; Path=/; SameSite=Lax; Max-Age=2592000"@
}

pub fn session_cookie(token: &str) -> (r: String)
    ensures
        r@ == session_cookie_spec(token@),
{
    let mut v = to_chars("mb_session=");
    push_all(&mut v, &to_chars(token));
    push_all(&mut v, &to_chars("; HttpOnly; Path=/; SameSite=Lax; Max-Age=2592000"));
    string_from_chars(&v)
}

/// Sessions last 30 days.
pub const SESSION_SECONDS: u64 = 2592000;

/// When a session issued at `now` (UNIX seconds) expires.
pub fn session_expiry(now: u64) -> (r: u64)
    requires
        now + SESSION_SECONDS <= u64::MAX,
    ensures
        r == now + SESSION_SECONDS,
{
    now + SESSION_SECONDS
}

/// Whether a session that expires at `exp` is still valid at `now`.
pub fn session_live(exp: u64, now: u64) -> (r: bool)
    ensures
        r == (exp >= now),
{
    exp >= now
}

// ------------------------------------------------------------------ configuration

/// The Google OAuth settings and the session secret.
pub struct AuthConfig {
    pub google_client_id: String,
    pub google_client_secret: String,
    pub google_redirect_uri: String,
    pub session_secret: String,
}

/// The redirect URI used when none is configured.
pub open spec fn default_redirect_uri() -> Seq<char> {
    "http://127.0.0.1:3000/api/auth/callback"@
}

pub open spec fn or_empty(o: Option<String>) -> Seq<char> {
    match o {
        Some(s) => s@,
        None => Seq::empty(),
    }
}

impl AuthConfig {
    /// The configuration from the values of the environment variables
    /// `GOOGLE_CLIENT_ID`, `GOOGLE_CLIENT_SECRET`, `GOOGLE_REDIRECT_URI` and
    /// `SESSION_SECRET` (`None` where unset): missing values are empty, and
    /// the redirect URI defaults to the local callback.
    pub fn from_values(
        client_id: Option<String>,
        client_secret: Option<String>,
        redirect_uri: Option<String>,
        session_secret: Option<String>,
    ) -> (c: AuthConfig)
        ensures
            c.google_client_id@ == or_empty(client_id),
            c.google_client_secret@ == or_empty(client_secret),
            c.google_redirect_uri@ == (match redirect_uri {
                Some(r) => r@,
                None => default_redirect_uri(),
            }),
            c.session_secret@ == or_empty(session_secret),
    {
        AuthConfig {
            google_client_id: match client_id {
                Some(s) => s,
                None => String::new(),
            },
            google_client_secret: match client_secret {
                Some(s) => s,
                None => String::new(),
            },
            google_redirect_uri: match redirect_uri {
                Some(s) => s,
                None => String::from_str("http://127.0.0.1:3000/api/auth/callback"),
            },
            session_secret: match session_secret {
                Some(s) => s,
                None => String::new(),
            },
        }
    }

    /// Whether Google sign-in is set up: client id and secret both given.
    pub fn configured(&self) -> (r: bool)
        ensures
            r == (self.google_client_id@.len() > 0 && self.google_client_secret@.len() > 0),
    {
        !self.google_client_id.as_str().is_empty() && !self.google_client_secret.as_str().is_empty()
    }
}

/// The Google authorization URL the login endpoint redirects to.
pub open spec fn google_auth_url_spec(client_id: Seq<char>, redirect_uri: Seq<char>) -> Seq<char> {
    "https://accounts.google.com/o/oauth2/v2/auth?"@ + "client_id="@ + url_encoded(client_id)
        + "&"@ + "redirect_uri="@ + url_encoded(redirect_uri) + "&"@ + "response_type="@
        + url_encoded("code"@) + "&"@ + "scope="@ + url_encoded("openid email profile"@) + "&"@
        + "access_type="@ + url_encoded("online"@) + "&"@ + "prompt="@ + url_encoded(
        "select_account"@,
    )
}

pub fn google_auth_url(client_id: &str, redirect_uri: &str) -> (r: String)
    ensures
        r@ == google_auth_url_spec(client_id@, redirect_uri@),
{
    let mut v = to_chars("https://accounts.google.com/o/oauth2/v2/auth?");
    push_all(&mut v, &to_chars("client_id="));
    push_all(&mut v, &to_chars(url_encode(client_id).as_str()));
    push_all(&mut v, &to_chars("&"));
    push_all(&mut v, &to_chars("redirect_uri="));
    push_all(&mut v, &to_chars(url_encode(redirect_uri).as_str()));
    push_all(&mut v, &to_chars("&"));
    push_all(&mut v, &to_chars("response_type="));
    push_all(&mut v, &to_chars(url_encode("code").as_str()));
    push_all(&mut v, &to_chars("&"));
    push_all(&mut v, &to_chars("scope="));
    push_all(&mut v, &to_chars(url_encode("openid email profile").as_str()));
    push_all(&mut v, &to_chars("&"));
    push_all(&mut v, &to_chars("access_type="));
    push_all(&mut v, &to_chars(url_encode("online").as_str()));
    push_all(&mut v, &to_chars("&"));
    push_all(&mut v, &to_chars("prompt="));
    push_all(&mut v, &to_chars(url_encode("select_account").as_str()));
    string_from_chars(&v)
}

/// What the OAuth callback makes of the user info: refused when Google says
/// the e-mail is unverified, a server error without a subject or with a
/// secret shorter than 16 bytes.
pub open spec fn callback_verdict_spec(email_verified: Option<bool>, sub: Seq<char>, secret: Seq<char>) -> Result<
    (),
    (u16, Seq<char>),
> {
    if email_verified == Some(false) {
        Err((403u16, "email not verified"@))
    } else if sub.len() == 0 || encode_utf8(secret).len() < 16 {
        Err((500u16, "server session misconfigured"@))
    } else {
        Ok(())
    }
}

pub fn callback_verdict(email_verified: Option<bool>, sub: &str, secret: &str) -> (r: Result<
    (),
    (u16, String),
>)
    ensures
        r matches Ok(()) ==> callback_verdict_spec(email_verified, sub@, secret@) is Ok,
        r matches Err((c, m)) ==> callback_verdict_spec(email_verified, sub@, secret@) == Err::<
            (),
            (u16, Seq<char>),
        >((c, m@)),
{
    if let Some(false) = email_verified {
        return Err((403, String::from_str("email not verified")));
    }
    if sub.is_empty() || secret.as_bytes().len() < 16 {
        return Err((500, String::from_str("server session misconfigured")));
    }
    Ok(())
}

// ------------------------------------------------------------------ run mode

/// The run mode: `APP_MODE`, else `MOVIEBOX_MODE`, else `development`, in
/// ASCII lower case.
pub open spec fn app_mode_spec(app_mode_var: Option<Seq<char>>, moviebox_mode_var: Option<Seq<char>>) -> Seq<char> {
    lower(
        match app_mode_var {
            Some(m) => m,
            None => match moviebox_mode_var {
                Some(m) => m,
                None => "development"@,
            },
        },
    )
}

/// The run mode from the values of `APP_MODE` and `MOVIEBOX_MODE`.
pub fn app_mode(app_mode_var: Option<&str>, moviebox_mode_var: Option<&str>) -> (r: String)
    ensures
        r@ == app_mode_spec(
            crate::urls::opt_str_view(app_mode_var),
            crate::urls::opt_str_view(moviebox_mode_var),
        ),
{
    let raw: &str = match app_mode_var {
        Some(m) => m,
        None => match moviebox_mode_var {
            Some(m) => m,
            None => "development",
        },
    };
    string_from_chars(&to_lower(&to_chars(raw)))
}

/// Production mode (`production` or `prod`) requires sign-in for watching
/// and the library; development mode leaves everything open.
pub fn login_required(mode: &str) -> (r: bool)
    ensures
        r == (mode@ == "production"@ || mode@ == "prod"@),
{
    let m = to_chars(mode);
    eq_str(&m, "production") || eq_str(&m, "prod")
}

/// A signed-in user.
pub struct Session {
    pub sub: String,
    pub email: String,
    pub name: String,
    pub picture: String,
    pub exp: u64,
}

/// The session that development mode grants every request.
pub fn dev_session() -> (s: Session)
    ensures
        s.sub@ == "dev-local"@,
        s.email@ == Seq::<char>::empty(),
        s.name@ == "Developer"@,
        s.picture@ == Seq::<char>::empty(),
        s.exp == u64::MAX,
{
    Session {
        sub: String::from_str("dev-local"),
        email: String::new(),
        name: String::from_str("Developer"),
        picture: String::new(),
        exp: u64::MAX,
    }
}


// ------------------------------------------------------------------ signed-in sessions

/// The sessions signed in on this server, by token. Signing out removes the
/// tokens, so a copied cookie stops working even before it expires.
pub struct SessionRegistry {
    map: StrMap<Session>,
}

impl View for SessionRegistry {
    type V = Map<Seq<char>, Session>;

    closed spec fn view(&self) -> Map<Seq<char>, Session> {
        self.map@
    }
}

/// Some token a request may be signed in with is registered.
pub open spec fn admits_spec(m: Map<Seq<char>, Session>, cookie: Seq<char>) -> bool {
    exists|i: int|
        0 <= i < login_tokens(cookie).len() && m.contains_key(#[trigger] login_tokens(cookie)[i])
}

/// The tokens a request may be signed in with.
pub open spec fn login_tokens(cookie: Seq<char>) -> Seq<Seq<char>> {
    leading_session_values(split_char(cookie, ';'))
}

/// The registry once every session token of a cookie is dropped.
pub open spec fn signed_out(m: Map<Seq<char>, Session>, cookie: Seq<char>) -> Map<Seq<char>, Session> {
    m.remove_keys(all_session_values(split_char(cookie, ';')).to_set())
}

impl SessionRegistry {
    pub closed spec fn wf(&self) -> bool {
        self.map.wf()
    }

    pub fn new() -> (r: Self)
        ensures
            r.wf(),
            r@ == Map::<Seq<char>, Session>::empty(),
    {
        SessionRegistry { map: StrMap::new() }
    }

    /// Records a session issued with `token`.
    pub fn register(&mut self, token: String, s: Session)
        requires
            old(self).wf(),
        ensures
            final(self).wf(),
            final(self)@ == old(self)@.insert(token@, s),
    {
        self.map.insert(token, s);
    }

    /// Whether `token` belongs to a signed-in session.
    pub fn is_registered(&self, token: &str) -> (r: bool)
        requires
            self.wf(),
        ensures
            r == self@.contains_key(token@),
    {
        self.map.contains(token)
    }

    /// Whether a request with this `Cookie` header is signed in: one of its
    /// leading `mb_session=` tokens is registered.
    pub fn admits(&self, cookie: &str) -> (r: bool)
        requires
            self.wf(),
        ensures
            r == admits_spec(self@, cookie@),
    {
        let toks = leading_session_tokens(cookie);
        let ghost lead = login_tokens(cookie@);
        let mut i: usize = 0;
        while i < toks.len()
            invariant
                i <= toks.len(),
                strings_view(toks@) == lead,
                lead == login_tokens(cookie@),
                self.wf(),
                forall|j: int| 0 <= j < i ==> !self@.contains_key(#[trigger] lead[j]),
            decreases toks.len() - i,
        {
            assert(lead[i as int] == toks@[i as int]@);
            if self.is_registered(toks[i].as_str()) {
                assert(self@.contains_key(login_tokens(cookie@)[i as int]));
                return true;
            }
            i = i + 1;
        }
        false
    }

    /// Drops every session token of a `Cookie` header (sign-out).
    pub fn sign_out(&mut self, cookie: &str)
        requires
            old(self).wf(),
        ensures
            final(self).wf(),
            final(self)@ == signed_out(old(self)@, cookie@),
    {
        let toks = all_session_tokens(cookie);
        let ghost all = all_session_values(split_char(cookie@, ';'));
        let ghost start = self@;
        let mut i: usize = 0;
        assert(start.remove_keys(all.take(0).to_set()) =~= start);
        while i < toks.len()
            invariant
                i <= toks.len(),
                strings_view(toks@) == all,
                all == all_session_values(split_char(cookie@, ';')),
                start == old(self)@,
                self.wf(),
                self@ == start.remove_keys(all.take(i as int).to_set()),
            decreases toks.len() - i,
        {
            assert(all[i as int] == toks@[i as int]@);
            self.map.remove(toks[i].as_str());
            assert(all.take(i + 1).to_set() =~= all.take(i as int).to_set().insert(all[i as int])) by {
                assert(all.take(i + 1) =~= all.take(i as int).push(all[i as int]));
                vstd::seq_lib::lemma_seq_contains_after_push(all.take(i as int), all[i as int], all[i as int]);
                assert forall|x: Seq<char>| all.take(i + 1).to_set().contains(x) == all.take(i as int).to_set().insert(all[i as int]).contains(x) by {
                    vstd::seq_lib::lemma_seq_contains_after_push(all.take(i as int), all[i as int], x);
                }
            }
            assert(self@ =~= start.remove_keys(all.take(i + 1).to_set()));
            i = i + 1;
        }
        assert(all.take(toks.len() as int) =~= all);
    }
}

/// Every token a request may be signed in with is one sign-out drops.
pub proof fn lemma_leading_among_all(parts: Seq<Seq<char>>)
    ensures
        forall|i: int| 0 <= i < leading_session_values(parts).len() ==> all_session_values(parts).contains(
            #[trigger] leading_session_values(parts)[i]),
    decreases parts.len(),
{
    if parts.len() > 0 && has_prefix(trim(parts[0]), session_prefix()) {
        lemma_leading_among_all(parts.drop_first());
        let lead = leading_session_values(parts);
        let all = all_session_values(parts);
        let rest_l = leading_session_values(parts.drop_first());
        let rest_a = all_session_values(parts.drop_first());
        assert forall|i: int| 0 <= i < lead.len() implies all.contains(#[trigger] lead[i]) by {
            if i == 0 {
                assert(all[0] == lead[0]);
            } else {
                assert(lead[i] == rest_l[i - 1]);
                let j = choose|j: int| 0 <= j < rest_a.len() && rest_a[j] == rest_l[i - 1];
                assert(all[j + 1] == rest_a[j]);
            }
        }
    }
}

/// A request signed out with its own cookie is no longer signed in.
pub proof fn lemma_sign_out_revokes(m: Map<Seq<char>, Session>, cookie: Seq<char>)
    ensures
        !admits_spec(signed_out(m, cookie), cookie),
{
    let parts = split_char(cookie, ';');
    lemma_leading_among_all(parts);
    let lead = leading_session_values(parts);
    let m2 = signed_out(m, cookie);
    assert forall|i: int| 0 <= i < lead.len() implies !m2.contains_key(#[trigger] lead[i]) by {
        assert(all_session_values(parts).contains(lead[i]));
        assert(all_session_values(parts).to_set().contains(lead[i]));
    }
}

/// Registering a session signs in a request that carries its token first.
pub proof fn lemma_registered_token_admits(m: Map<Seq<char>, Session>, token: Seq<char>, s: Session, cookie: Seq<char>)
    requires
        leading_session_values(split_char(cookie, ';')).len() > 0,
        leading_session_values(split_char(cookie, ';'))[0] == token,
    ensures
        admits_spec(m.insert(token, s), cookie),
{
    let m2 = m.insert(token, s);
    assert(login_tokens(cookie)[0] == token);
    assert(m2.contains_key(token));
    assert(m2.contains_key(login_tokens(cookie)[0]));
    assert(0 <= 0 < login_tokens(cookie).len());
}
} // verus!
