//! OAuth sign-in: PKCE values, the authorization URL, the redirect that
//! brings the code back, token responses, the device-code flow's decisions
//! and the claims of an ID token.
use vstd::prelude::*;
use base64::Engine;
use sha2::Digest;
use crate::config::Tokens;
use crate::text::{
    after_first, before_first, chars_of, first_line, first_line_of, split_chars, split_on,
    split_from, split_once_at, str_eq, string_of, tokens_from, whitespace_tokens,
};

verus! {

// ── Outside computations ───────────────────────────────────────────────

/// The URL-safe base64 encoding of `bytes` without padding.
pub uninterp spec fn base64_url_nopad(bytes: Seq<u8>) -> Seq<char>;

/// The standard base64 encoding of `bytes` with padding.
pub uninterp spec fn base64_standard(bytes: Seq<u8>) -> Seq<char>;

/// The bytes that URL-safe base64 without padding decodes `text` to, if it
/// is valid.
pub uninterp spec fn base64_url_nopad_decoded(text: Seq<u8>) -> Option<Seq<u8>>;

/// The bytes that URL-safe base64 with padding decodes `text` to, if it is
/// valid.
pub uninterp spec fn base64_url_padded_decoded(text: Seq<u8>) -> Option<Seq<u8>>;

/// The SHA-256 digest of `bytes`.
pub uninterp spec fn sha256_digest(bytes: Seq<u8>) -> Seq<u8>;

/// For `json` parsed as a JSON value: `None` when it is not valid JSON,
/// else the string under `key` when the value is an object holding a string
/// there.
pub uninterp spec fn json_string_field(json: Seq<u8>, key: Seq<char>) -> Option<Option<Seq<char>>>;

/// The length base64 output has for `n` input bytes: four characters per
/// three bytes, and for a last partial group two or three characters
/// without padding, four with.
pub open spec fn base64_len(n: nat, padded: bool) -> nat {
    let full = (n / 3) * 4;
    if n % 3 == 0 {
        full
    } else if padded {
        full + 4
    } else if n % 3 == 1 {
        full + 2
    } else {
        full + 3
    }
}

/// A character of the URL-safe base64 alphabet: `A`-`Z`, `a`-`z`, `0`-`9`,
/// `-` and `_`.
pub open spec fn url_safe_base64_char(c: char) -> bool {
    let v = c as u32;
    ||| 0x41 <= v <= 0x5a
    ||| 0x61 <= v <= 0x7a
    ||| 0x30 <= v <= 0x39
    ||| c == '-'
    ||| c == '_'
}

/// A character of the standard base64 alphabet: `A`-`Z`, `a`-`z`, `0`-`9`,
/// `+` and `/`.
pub open spec fn standard_base64_char(c: char) -> bool {
    let v = c as u32;
    ||| 0x41 <= v <= 0x5a
    ||| 0x61 <= v <= 0x7a
    ||| 0x30 <= v <= 0x39
    ||| c == '+'
    ||| c == '/'
}

/// Encodes `bytes` with `base64::engine::general_purpose::URL_SAFE_NO_PAD`.
///
/// Trusted: the result is named by `base64_url_nopad`; its length is the one
/// the crate's `encoded_len` computes; every character is of the URL-safe
/// alphabet (`alphabet::URL_SAFE`), with no `=` since the `NO_PAD` config
/// writes no padding; and decoding it with the same engine gives `bytes`
/// back. (The crate panics when the length overflows `usize`, which no slice
/// in memory is long enough for.)
#[verifier::external_body]
fn encode_url_nopad(bytes: &[u8]) -> (res: String)
    ensures
        res@ == base64_url_nopad(bytes@),
        res@.len() == base64_len(bytes@.len(), false),
        forall|i: int| 0 <= i < res@.len() ==> url_safe_base64_char(#[trigger] res@[i]),
        base64_url_nopad_decoded(vstd::utf8::encode_utf8(res@)) == Some(bytes@),
{
    base64::engine::general_purpose::URL_SAFE_NO_PAD.encode(bytes)
}

/// Encodes `bytes` with `base64::engine::general_purpose::STANDARD`.
///
/// Trusted: the result is named by `base64_standard`; its length is the one
/// the crate's `encoded_len` computes with padding; every character is of
/// the standard alphabet (`alphabet::STANDARD`) but for at most two `=` of
/// padding at the end.
#[verifier::external_body]
fn encode_standard(bytes: &[u8]) -> (res: String)
    ensures
        res@ == base64_standard(bytes@),
        res@.len() == base64_len(bytes@.len(), true),
        forall|i: int| 0 <= i < res@.len() ==> standard_base64_char(#[trigger] res@[i])
            || (res@[i] == '=' && i >= res@.len() - 2),
{
    base64::engine::general_purpose::STANDARD.encode(bytes)
}

/// Decodes `text` with `base64::engine::general_purpose::URL_SAFE_NO_PAD`.
///
/// Trusted: the result is named by `base64_url_nopad_decoded`; any decode
/// error becomes `None`.
#[verifier::external_body]
fn decode_url_nopad(text: &[u8]) -> (res: Option<Vec<u8>>)
    ensures
        base64_url_nopad_decoded(text@) == match res {
            Some(v) => Some(v@),
            None => None::<Seq<u8>>,
        },
{
    base64::engine::general_purpose::URL_SAFE_NO_PAD.decode(text).ok()
}

/// Decodes `text` with `base64::engine::general_purpose::URL_SAFE`.
///
/// Trusted: the result is named by `base64_url_padded_decoded`; any decode
/// error becomes `None`.
#[verifier::external_body]
fn decode_url_padded(text: &[u8]) -> (res: Option<Vec<u8>>)
    ensures
        base64_url_padded_decoded(text@) == match res {
            Some(v) => Some(v@),
            None => None::<Seq<u8>>,
        },
{
    base64::engine::general_purpose::URL_SAFE.decode(text).ok()
}

/// Hashes `bytes` with `sha2::Sha256::digest`.
///
/// Trusted: the digest is named by `sha256_digest` and is 32 bytes long.
#[verifier::external_body]
fn sha256(bytes: &[u8]) -> (res: Vec<u8>)
    ensures
        res@ == sha256_digest(bytes@),
        res@.len() == 32,
{
    sha2::Sha256::digest(bytes).to_vec()
}

/// Parses `json` with `serde_json::from_slice` into a `serde_json::Value`
/// and reads the string under `key`.
///
/// Trusted: the result is named by `json_string_field`: `None` for a parse
/// error, `Some(None)` when `Value::get` finds no string there.
#[verifier::external_body]
fn json_string_at(json: &[u8], key: &str) -> (res: Option<Option<String>>)
    ensures
        json_string_field(json@, key@) == match res {
            Some(Some(s)) => Some(Some(s@)),
            Some(None) => Some(None::<Seq<char>>),
            None => None::<Option<Seq<char>>>,
        },
{
    let value: serde_json::Value = match serde_json::from_slice(json) {
        Ok(v) => v,
        Err(_) => return None,
    };
    match value.get(key) {
        Some(serde_json::Value::String(s)) => Some(Some(s.clone())),
        _ => Some(None),
    }
}

/// A random byte from `rand::random`.
///
/// Trusted: nothing is stated of the value.
#[verifier::external_body]
fn random_byte() -> u8 {
    rand::random::<u8>()
}

// ── Errors ─────────────────────────────────────────────────────────────

/// Why a sign-in step failed.
#[derive(Debug, PartialEq, Eq)]
pub enum AuthError {
    /// A query value holds a `%` not followed by two hex digits; the value.
    InvalidPercentEncoding(String),
    /// The state in the redirect is not the one sent.
    StateMismatch { got: Option<String>, expected: String },
    /// The redirect carries no authorization code.
    MissingCode,
    /// A token response has no access token.
    MissingAccessToken,
    /// A successful device token response could not be parsed.
    DeviceTokenParse,
    /// The device code expired before the user approved it.
    DeviceCodeExpired,
    /// The user denied the authorization.
    AccessDenied,
    /// The token endpoint answered with this OAuth error and body.
    DeviceTokenError { error: String, body: String },
    /// The token endpoint failed with this HTTP status and body, naming no
    /// OAuth error.
    DeviceTokenStatus { status: u16, body: String },
}

// ── PKCE ───────────────────────────────────────────────────────────────

/// `n` random bytes.
fn random_bytes(n: usize) -> (res: Vec<u8>)
    ensures
        res@.len() == n,
{
    let mut out: Vec<u8> = Vec::new();
    let mut i: usize = 0;
    while i < n
        invariant
            i <= n,
            out@.len() == i,
        decreases n - i,
    {
        out.push(random_byte());
        i = i + 1;
    }
    out
}

/// A PKCE code verifier: 32 random bytes, base64url-encoded without padding.
/// Its 43 characters lie within the 43 to 128 that RFC 7636 allows, all of
/// the URL-safe alphabet, and it decodes back to the 32 bytes.
pub fn pkce_verifier() -> (res: String)
    ensures
        exists|bytes: Seq<u8>|
            bytes.len() == 32 && res@ == base64_url_nopad(bytes)
                && base64_url_nopad_decoded(vstd::utf8::encode_utf8(res@)) == Some(bytes),
        res@.len() == 43,
        forall|i: int| 0 <= i < res@.len() ==> url_safe_base64_char(#[trigger] res@[i]),
{
    let bytes = random_bytes(32);
    encode_url_nopad(&bytes)
}

/// The S256 code challenge of a verifier: the base64url encoding (without
/// padding) of the SHA-256 digest of the verifier's UTF-8 bytes.
pub fn pkce_challenge(verifier: &str) -> (res: String)
    ensures
        res@ == base64_url_nopad(sha256_digest(vstd::utf8::encode_utf8(verifier@))),
        res@.len() == 43,
        forall|i: int| 0 <= i < res@.len() ==> url_safe_base64_char(#[trigger] res@[i]),
{
    let hash = sha256(verifier.as_bytes());
    encode_url_nopad(&hash)
}

/// A random state for a login: 16 random bytes, base64url-encoded without
/// padding.
pub fn login_state() -> (res: String)
    ensures
        exists|bytes: Seq<u8>|
            bytes.len() == 16 && res@ == base64_url_nopad(bytes)
                && base64_url_nopad_decoded(vstd::utf8::encode_utf8(res@)) == Some(bytes),
        res@.len() == 22,
        forall|i: int| 0 <= i < res@.len() ==> url_safe_base64_char(#[trigger] res@[i]),
{
    let bytes = random_bytes(16);
    encode_url_nopad(&bytes)
}

/// The authorization URL of a login, given the code challenge and the
/// `state` parameter.
pub open spec fn authorization_url_of(code_challenge: Seq<char>, state_param: Seq<char>) -> Seq<char> {
    "https://oauth.accounts.hytale.com/oauth2/auth?access_type=offline&client_id=hytale-launcher&scope=openid+offline+auth%3Alauncher&response_type=code&redirect_uri=https://accounts.hytale.com/consent/client&code_challenge="@
        + code_challenge + "&code_challenge_method=S256&state="@ + state_param
}

/// The authorization URL of a login, given the code challenge and the
/// `state` parameter.
pub fn authorization_url(code_challenge: &str, state_param: &str) -> (res: String)
    ensures
        res@ == authorization_url_of(code_challenge@, state_param@),
{
    let mut url = String::from_str(
        "https://oauth.accounts.hytale.com/oauth2/auth?access_type=offline&client_id=hytale-launcher&scope=openid+offline+auth%3Alauncher&response_type=code&redirect_uri=https://accounts.hytale.com/consent/client&code_challenge=",
    );
    url.append(code_challenge);
    url.append("&code_challenge_method=S256&state=");
    url.append(state_param);
    url
}

/// The authorization URL for the PKCE login: the `state` parameter is the
/// standard base64 encoding of the JSON state object (which holds the
/// random state and the local port the browser is sent back to).
pub fn auth_url(code_challenge: &str, state_json: &str) -> (res: String)
    ensures
        res@ == authorization_url_of(code_challenge@, base64_standard(vstd::utf8::encode_utf8(state_json@))),
{
    let state_param = encode_standard(state_json.as_bytes());
    authorization_url(code_challenge, state_param.as_str())
}

// ── The redirect back from the consent page ─────────────────────────────

/// The value of a hexadecimal digit, as `char::to_digit(16)` gives it.
pub open spec fn hex_value(c: char) -> Option<u32> {
    let v = c as u32;
    if 0x30 <= v <= 0x39 {
        Some((v - 0x30) as u32)
    } else if 0x61 <= v <= 0x66 {
        Some((v - 0x61 + 10) as u32)
    } else if 0x41 <= v <= 0x46 {
        Some((v - 0x41 + 10) as u32)
    } else {
        None
    }
}

/// `s` with percent-encoding undone: `+` stands for a space and `%XY` for
/// the character whose code is the byte `0xXY`; a `%` not followed by two
/// hex digits makes the value invalid (`None`).
pub open spec fn url_decoded(s: Seq<char>) -> Option<Seq<char>>
    decreases s.len(),
{
    if s.len() == 0 {
        Some(Seq::empty())
    } else if s[0] == '+' {
        match url_decoded(s.drop_first()) {
            Some(r) => Some(seq![' '] + r),
            None => None,
        }
    } else if s[0] == '%' {
        if s.len() >= 3 && hex_value(s[1]) is Some && hex_value(s[2]) is Some {
            let b = (hex_value(s[1])->0 * 16 + hex_value(s[2])->0) as u8;
            match url_decoded(s.skip(3)) {
                Some(r) => Some(seq![b as char] + r),
                None => None,
            }
        } else {
            None
        }
    } else {
        match url_decoded(s.drop_first()) {
            Some(r) => Some(seq![s[0]] + r),
            None => None,
        }
    }
}

/// The value of a hexadecimal digit.
fn hex_digit(c: char) -> (res: Option<u32>)
    ensures
        res == hex_value(c),
{
    let v = c as u32;
    if 0x30 <= v && v <= 0x39 {
        Some(v - 0x30)
    } else if 0x61 <= v && v <= 0x66 {
        Some(v - 0x61 + 10)
    } else if 0x41 <= v && v <= 0x46 {
        Some(v - 0x41 + 10)
    } else {
        None
    }
}

/// Undoes the percent-encoding of a query-string value.
pub fn url_decode(s: &str) -> (res: Result<String, AuthError>)
    ensures
        match url_decoded(s@) {
            Some(d) => res matches Ok(r) && r@ == d,
            None => res matches Err(AuthError::InvalidPercentEncoding(v)) && v@ == s@,
        },
{
    let cs = chars_of(s);
    let mut out: Vec<char> = Vec::new();
    let mut i: usize = 0;
    assert(cs@.skip(0) =~= cs@);
    while i < cs.len()
        invariant
            i <= cs@.len(),
            cs@ == s@,
            url_decoded(s@) == match url_decoded(cs@.skip(i as int)) {
                Some(r) => Some(out@ + r),
                None => None::<Seq<char>>,
            },
        decreases cs@.len() - i,
    {
        let ghost rest = cs@.skip(i as int);
        let c = cs[i];
        if c == '%' {
            let hi = if cs.len() - i > 1 { hex_digit(cs[i + 1]) } else { None };
            let lo = if cs.len() - i > 2 { hex_digit(cs[i + 2]) } else { None };
            match (hi, lo) {
                (Some(h), Some(l)) => {
                    let b = (h * 16 + l) as u8;
                    let ghost before = out@;
                    out.push(b as char);
                    assert(rest.skip(3) =~= cs@.skip(i + 3));
                    proof {
                        let r = url_decoded(rest.skip(3));
                        if r is Some {
                            assert(before + (seq![b as char] + r->0) =~= out@ + r->0);
                        }
                    }
                    i = i + 3;
                },
                _ => {
                    return Err(AuthError::InvalidPercentEncoding(s.to_owned()));
                },
            }
        } else {
            let ghost before = out@;
            if c == '+' {
                out.push(' ');
            } else {
                out.push(c);
            }
            assert(rest.drop_first() =~= cs@.skip(i + 1));
            proof {
                let r = url_decoded(rest.drop_first());
                if r is Some {
                    assert(before + (seq![out@.last()] + r->0) =~= out@ + r->0);
                }
            }
            i = i + 1;
        }
    }
    assert(cs@.skip(i as int) =~= Seq::<char>::empty());
    assert(out@ + Seq::<char>::empty() =~= out@);
    Ok(string_of(&out))
}

/// The query of the request target in the first line of an HTTP request
/// (`GET /authorization-callback?code=...&state=... HTTP/1.1`): the second
/// whitespace-separated word of the line, from after its first `?` to the
/// next `?` or its end; empty when any part is missing.
pub open spec fn request_query(request: Seq<char>) -> Seq<char> {
    let path = match first_line(request) {
        Some(l) => {
            let words = tokens_from(l, Seq::empty());
            if words.len() >= 2 {
                words[1]
            } else {
                Seq::<char>::empty()
            }
        },
        None => Seq::<char>::empty(),
    };
    match after_first(path, '?') {
        Some(r) => before_first(r, '?'),
        None => Seq::<char>::empty(),
    }
}

/// The `code` and `state` values of the query pairs `pairs[i..]` after the
/// ones found so far: each `key=value` pair with key `code` or `state`
/// sets that value, decoded, and the last one wins; a pair without `=` is
/// ignored. The first value that cannot be decoded makes the result that
/// value, undecoded.
pub open spec fn callback_values_from(
    pairs: Seq<Seq<char>>,
    i: int,
    code: Option<Seq<char>>,
    state: Option<Seq<char>>,
) -> Result<(Option<Seq<char>>, Option<Seq<char>>), Seq<char>>
    decreases pairs.len() - i,
{
    if i < 0 || i >= pairs.len() {
        Ok((code, state))
    } else {
        let key = before_first(pairs[i], '=');
        match after_first(pairs[i], '=') {
            None => callback_values_from(pairs, i + 1, code, state),
            Some(v) => {
                if key == "code"@ {
                    match url_decoded(v) {
                        None => Err(v),
                        Some(d) => callback_values_from(pairs, i + 1, Some(d), state),
                    }
                } else if key == "state"@ {
                    match url_decoded(v) {
                        None => Err(v),
                        Some(d) => callback_values_from(pairs, i + 1, code, Some(d)),
                    }
                } else {
                    callback_values_from(pairs, i + 1, code, state)
                }
            },
        }
    }
}

/// The `code` and `state` values of the redirect request, or the first
/// value that cannot be decoded.
pub open spec fn callback_values(request: Seq<char>) -> Result<(Option<Seq<char>>, Option<Seq<char>>), Seq<char>> {
    callback_values_from(split_on(request_query(request), '&'), 0, None, None)
}

/// The authorization code and state carried by the redirect.
#[derive(Debug, PartialEq, Eq)]
pub struct CallbackParams {
    pub code: Option<String>,
    pub state: Option<String>,
}

/// Whether two character lists are equal.
fn chars_equal(a: &[char], b: &[char]) -> (res: bool)
    ensures
        res == (a@ == b@),
{
    if a.len() != b.len() {
        return false;
    }
    let mut i: usize = 0;
    while i < a.len()
        invariant
            a@.len() == b@.len(),
            i <= a@.len(),
            forall|j: int| 0 <= j < i ==> a@[j] == b@[j],
        decreases a@.len() - i,
    {
        if a[i] != b[i] {
            return false;
        }
        i = i + 1;
    }
    assert(a@ =~= b@);
    true
}

/// The query of the request target in the first line of `request`.
fn query_of_request(request: &[char]) -> (res: Vec<char>)
    ensures
        res@ == request_query(request@),
{
    let path: Vec<char> = match first_line_of(request) {
        Some(line) => {
            let mut words = whitespace_tokens(&line);
            if words.len() >= 2 {
                let ghost ws = words@.map_values(|v: Vec<char>| v@);
                assert(ws[1] == words@[1]@);
                words.swap_remove(1)
            } else {
                Vec::new()
            }
        },
        None => Vec::new(),
    };
    let (_before, after) = split_once_at(&path, '?');
    match after {
        Some(rest) => split_once_at(&rest, '?').0,
        None => Vec::new(),
    }
}

/// An optional string taken as an optional character sequence.
pub open spec fn opt_chars(o: Option<String>) -> Option<Seq<char>> {
    match o {
        Some(s) => Some(s@),
        None => None,
    }
}

/// Reads the authorization code and state from the redirect request that
/// the consent page sends to the local server.
pub fn parse_callback(request: &str) -> (res: Result<CallbackParams, AuthError>)
    ensures
        match callback_values(request@) {
            Ok((code, state)) => res matches Ok(p) && opt_chars(p.code) == code && opt_chars(p.state) == state,
            Err(v) => res matches Err(AuthError::InvalidPercentEncoding(x)) && x@ == v,
        },
{
    let request_chars = chars_of(request);
    let query = query_of_request(&request_chars);
    let pairs = split_chars(&query, '&');
    let ghost ps = pairs@.map_values(|v: Vec<char>| v@);
    let code_key = chars_of("code");
    let state_key = chars_of("state");
    let mut code: Option<String> = None;
    let mut state: Option<String> = None;
    let mut i: usize = 0;
    while i < pairs.len()
        invariant
            i <= pairs@.len(),
            ps == pairs@.map_values(|v: Vec<char>| v@),
            ps == split_on(request_query(request@), '&'),
            code_key@ == "code"@,
            state_key@ == "state"@,
            callback_values(request@) == callback_values_from(ps, i as int, opt_chars(code), opt_chars(state)),
        decreases pairs@.len() - i,
    {
        assert(ps[i as int] == pairs@[i as int]@);
        let (key, value) = split_once_at(&pairs[i], '=');
        match value {
            None => {},
            Some(v) => {
                let is_code = chars_equal(&key, &code_key);
                let is_state = chars_equal(&key, &state_key);
                if is_code || is_state {
                    let raw = string_of(&v);
                    let decoded = url_decode(raw.as_str())?;
                    if is_code {
                        code = Some(decoded);
                    } else {
                        state = Some(decoded);
                    }
                }
            },
        }
        i = i + 1;
    }
    Ok(CallbackParams { code, state })
}

/// Accepts the redirect when its state is the one sent and it carries a
/// code, and returns the code.
pub fn check_callback(params: CallbackParams, expected_state: &str) -> (res: Result<String, AuthError>)
    ensures
        if opt_chars(params.state) != Some(expected_state@) {
            res matches Err(AuthError::StateMismatch { got, expected }) && got == params.state && expected@ == expected_state@
        } else if params.code is None {
            res matches Err(AuthError::MissingCode)
        } else {
            res matches Ok(c) && c == params.code->0
        },
{
    let state_ok = match &params.state {
        Some(s) => str_eq(s.as_str(), expected_state),
        None => false,
    };
    if !state_ok {
        return Err(AuthError::StateMismatch { got: params.state, expected: expected_state.to_owned() });
    }
    match params.code {
        Some(c) => Ok(c),
        None => Err(AuthError::MissingCode),
    }
}

/// The page shown in the browser after the redirect: a success message
/// when a code came back, a failure message otherwise.
pub fn callback_page(code_received: bool) -> (res: &'static str)
    ensures
        res@ == if code_received {
            "<html><body><h1>Authentication successful!</h1><p>You can close this window.</p></body></html>"@
        } else {
            "<html><body><h1>Authentication failed.</h1><p>No code received.</p></body></html>"@
        },
{
    if code_received {
        "<html><body><h1>Authentication successful!</h1><p>You can close this window.</p></body></html>"
    } else {
        "<html><body><h1>Authentication failed.</h1><p>No code received.</p></body></html>"
    }
}

// ── Token responses ────────────────────────────────────────────────────

/// The fields of an OAuth token endpoint response.
#[derive(Debug)]
pub struct TokenResponse {
    pub access_token: Option<String>,
    pub id_token: Option<String>,
    pub refresh_token: Option<String>,
    /// Seconds until the access token expires.
    pub expires_in: Option<u64>,
    pub scope: Option<String>,
    pub token_type: Option<String>,
    pub error: Option<String>,
    pub error_description: Option<String>,
}

/// When an access token valid for `secs` seconds from `now` expires, with
/// the seconds converted to `i64` as the `as` cast does.
pub open spec fn expiry(now: i64, secs: u64) -> int {
    now + (secs as i64)
}

/// Whether the expiry of the response's lifetime, if any, fits in an `i64`.
pub open spec fn expiry_fits(now: i64, expires_in: Option<u64>) -> bool {
    expires_in matches Some(secs) ==> i64::MIN <= expiry(now, secs) <= i64::MAX
}

/// The tokens of a successful token response received at Unix time `now`.
/// The refresh token is the response's own, or `fallback_refresh` when it
/// has none (a refresh keeps the token it used). A response without an
/// access token is an error.
pub fn tokens_from_response(tr: TokenResponse, now: i64, fallback_refresh: Option<String>) -> (res: Result<Tokens, AuthError>)
    requires
        expiry_fits(now, tr.expires_in),
    ensures
        match tr.access_token {
            None => res matches Err(AuthError::MissingAccessToken),
            Some(access) => res matches Ok(t) && {
                &&& t.access_token == access
                &&& t.id_token == tr.id_token
                &&& t.refresh_token == if tr.refresh_token is Some { tr.refresh_token } else { fallback_refresh }
                &&& t.expires_at == match tr.expires_in {
                    Some(secs) => Some(expiry(now, secs) as i64),
                    None => None::<i64>,
                }
                &&& t.scope == tr.scope
            },
        },
{
    let expires_at = match tr.expires_in {
        Some(secs) => Some(now + (secs as i64)),
        None => None,
    };
    let access_token = match tr.access_token {
        Some(a) => a,
        None => return Err(AuthError::MissingAccessToken),
    };
    let refresh_token = match tr.refresh_token {
        Some(r) => Some(r),
        None => fallback_refresh,
    };
    Ok(Tokens { access_token, id_token: tr.id_token, refresh_token, expires_at, scope: tr.scope })
}

/// Whether an access token expiring at `expires_at` must be refreshed at
/// Unix time `now`: when it expires in under a minute. A token without an
/// expiry never is.
pub fn needs_refresh(expires_at: Option<i64>, now: i64) -> (res: bool)
    requires
        expires_at matches Some(exp) ==> i64::MIN <= exp - now <= i64::MAX,
    ensures
        res == (expires_at matches Some(exp) && exp - now < 60),
{
    match expires_at {
        Some(exp) => exp - now < 60,
        None => false,
    }
}

// ── Device authorization ───────────────────────────────────────────────

/// The seconds to wait between two polls: the interval the server asked
/// for, at least one.
pub fn poll_interval(interval: u64) -> (res: u64)
    ensures
        res == if interval >= 1 { interval } else { 1 },
{
    if interval >= 1 { interval } else { 1 }
}

/// The extra wait, in seconds, after a poll's answer: the interval plus five
/// when the server asked to slow down, none otherwise.
pub fn slow_down_wait(outcome: &PollOutcome, interval: u64) -> (res: Option<u64>)
    requires
        outcome is SlowDown ==> interval + 5 <= u64::MAX,
    ensures
        res == if outcome is SlowDown {
            Some((interval + 5) as u64)
        } else {
            None::<u64>
        },
{
    match outcome {
        PollOutcome::SlowDown => Some(interval + 5),
        _ => None,
    }
}

/// The page the user opens to approve the device: the complete link when
/// the server gave one, else the verification page with the user code as a
/// query parameter.
pub fn verification_link(complete: Option<String>, verification_uri: &str, user_code: &str) -> (res: String)
    ensures
        res@ == match complete {
            Some(c) => c@,
            None => verification_uri@ + "?user_code="@ + user_code@,
        },
{
    match complete {
        Some(c) => c,
        None => {
            let mut link = String::from_str(verification_uri);
            link.append("?user_code=");
            link.append(user_code);
            link
        },
    }
}

/// What to do after polling the token endpoint.
#[derive(Debug)]
pub enum PollOutcome {
    /// The user approved: the tokens.
    Done(Tokens),
    /// Not approved yet: poll again after the interval.
    Pending,
    /// Polling too fast: wait five seconds more, then poll again.
    SlowDown,
    /// Give up with this error.
    Failed(AuthError),
}

/// Decides what a poll's answer means. `success` says whether the HTTP
/// status was a success, `response` is the body parsed as a token
/// response (when that parse succeeded), `error` is the body's `error`
/// string, if any.
pub fn device_poll_decision(
    success: bool,
    status: u16,
    body: String,
    response: Option<TokenResponse>,
    error: Option<String>,
    now: i64,
) -> (res: PollOutcome)
    requires
        response matches Some(tr) ==> expiry_fits(now, tr.expires_in),
    ensures
        success ==> match response {
            None => res matches PollOutcome::Failed(AuthError::DeviceTokenParse),
            Some(tr) => match tr.access_token {
                None => res matches PollOutcome::Failed(AuthError::MissingAccessToken),
                Some(access) => res matches PollOutcome::Done(t) && t.access_token == access
                    && t.id_token == tr.id_token && t.refresh_token == tr.refresh_token
                    && t.scope == tr.scope
                    && t.expires_at == match tr.expires_in {
                        Some(secs) => Some(expiry(now, secs) as i64),
                        None => None::<i64>,
                    },
            },
        },
        !success ==> match error {
            None => res matches PollOutcome::Failed(AuthError::DeviceTokenStatus { status: s, body: b }) && s == status && b == body,
            Some(e) => if e@ == "authorization_pending"@ {
                res matches PollOutcome::Pending
            } else if e@ == "slow_down"@ {
                res matches PollOutcome::SlowDown
            } else if e@ == "expired_token"@ {
                res matches PollOutcome::Failed(AuthError::DeviceCodeExpired)
            } else if e@ == "access_denied"@ {
                res matches PollOutcome::Failed(AuthError::AccessDenied)
            } else {
                res matches PollOutcome::Failed(AuthError::DeviceTokenError { error: x, body: b }) && x == e && b == body
            },
        },
{
    if success {
        return match response {
            None => PollOutcome::Failed(AuthError::DeviceTokenParse),
            Some(tr) => match tokens_from_response(tr, now, None) {
                Ok(t) => PollOutcome::Done(t),
                Err(e) => PollOutcome::Failed(e),
            },
        };
    }
    match error {
        None => PollOutcome::Failed(AuthError::DeviceTokenStatus { status, body }),
        Some(e) => {
            if str_eq(e.as_str(), "authorization_pending") {
                PollOutcome::Pending
            } else if str_eq(e.as_str(), "slow_down") {
                PollOutcome::SlowDown
            } else if str_eq(e.as_str(), "expired_token") {
                PollOutcome::Failed(AuthError::DeviceCodeExpired)
            } else if str_eq(e.as_str(), "access_denied") {
                PollOutcome::Failed(AuthError::AccessDenied)
            } else {
                PollOutcome::Failed(AuthError::DeviceTokenError { error: e, body })
            }
        },
    }
}

/// The OAuth `error` string of a token endpoint body, when the body is a
/// JSON object holding one.
pub fn response_error(body: &str) -> (res: Option<String>)
    ensures
        opt_chars(res) == match json_string_field(vstd::utf8::encode_utf8(body@), "error"@) {
            Some(Some(e)) => Some(e),
            _ => None::<Seq<char>>,
        },
{
    match json_string_at(body.as_bytes(), "error") {
        Some(Some(e)) => Some(e),
        _ => None,
    }
}

// ── ID token claims ────────────────────────────────────────────────────

/// The payload part of a JWT: the text between its first and second dot.
pub open spec fn jwt_payload(token: Seq<char>) -> Option<Seq<char>> {
    let parts = split_on(token, '.');
    if parts.len() >= 2 {
        Some(parts[1])
    } else {
        None
    }
}

/// The claims `(sub, email)` of an ID token: its payload decoded as
/// URL-safe base64 (without padding, else with), parsed as JSON; `sub` must
/// be a string, `email` is kept when it is one. The signature is not
/// checked.
pub open spec fn id_token_claims(token: Seq<char>) -> Option<(Seq<char>, Option<Seq<char>>)> {
    match jwt_payload(token) {
        None => None,
        Some(p) => {
            let text = vstd::utf8::encode_utf8(p);
            let decoded = match base64_url_nopad_decoded(text) {
                Some(d) => Some(d),
                None => base64_url_padded_decoded(text),
            };
            match decoded {
                None => None,
                Some(d) => claims_of(json_string_field(d, "sub"@), json_string_field(d, "email"@)),
            }
        },
    }
}

/// The claims given what the JSON lookups of `sub` and `email` found.
pub open spec fn claims_of(sub: Option<Option<Seq<char>>>, email: Option<Option<Seq<char>>>) -> Option<(Seq<char>, Option<Seq<char>>)> {
    match sub {
        Some(Some(s)) => Some((
            s,
            match email {
                Some(Some(e)) => Some(e),
                _ => None,
            },
        )),
        _ => None,
    }
}

/// The claims given the JSON lookups of `sub` and `email` in the payload:
/// `sub` must have been found as a string, `email` is kept when it was.
pub fn claims_from_fields(sub: Option<Option<String>>, email: Option<Option<String>>) -> (res: Option<(String, Option<String>)>)
    ensures
        match claims_of(
            match sub {
                Some(Some(s)) => Some(Some(s@)),
                Some(None) => Some(None),
                None => None,
            },
            match email {
                Some(Some(e)) => Some(Some(e@)),
                Some(None) => Some(None),
                None => None,
            },
        ) {
            Some((s, e)) => res matches Some((rs, re)) && rs@ == s && opt_chars(re) == e,
            None => res is None,
        },
{
    match sub {
        Some(Some(s)) => Some((
            s,
            match email {
                Some(Some(e)) => Some(e),
                _ => None,
            },
        )),
        _ => None,
    }
}

/// Decodes the claims `(sub, email)` of an ID token without checking its
/// signature.
pub fn decode_id_token_claims(id_token: &str) -> (res: Option<(String, Option<String>)>)
    ensures
        match id_token_claims(id_token@) {
            Some((s, e)) => res matches Some((rs, re)) && rs@ == s && opt_chars(re) == e,
            None => res is None,
        },
{
    let chars = chars_of(id_token);
    let parts = split_chars(&chars, '.');
    if parts.len() < 2 {
        return None;
    }
    let ghost ps = parts@.map_values(|v: Vec<char>| v@);
    assert(ps[1] == parts@[1]@);
    let payload = string_of(&parts[1]);
    let text = payload.as_str().as_bytes();
    let decoded = match decode_url_nopad(text) {
        Some(d) => d,
        None => match decode_url_padded(text) {
            Some(d) => d,
            None => return None,
        },
    };
    let sub = json_string_at(&decoded, "sub");
    let email = json_string_at(&decoded, "email");
    claims_from_fields(sub, email)
}

/// The label a newly signed-in account gets: its e-mail when the ID token
/// has one, else its subject.
pub fn account_label(sub: String, email: Option<String>) -> (res: String)
    ensures
        res@ == match email {
            Some(e) => e@,
            None => sub@,
        },
{
    match email {
        Some(e) => e,
        None => sub,
    }
}

// ── Launcher data ──────────────────────────────────────────────────────

/// Which token a launcher-data request authenticates with.
#[derive(Debug, Clone, Copy, PartialEq, Eq)]
pub enum TokenKind {
    Access,
    Id,
}

/// The tokens to try, in order, to fetch the launcher data: the access
/// token, then the ID token when there is a non-empty one.
pub fn launcher_data_attempts(access_token: &str, id_token: Option<&str>) -> (res: Vec<(TokenKind, String)>)
    ensures
        res@.len() >= 1,
        res@[0].0 == TokenKind::Access && res@[0].1@ == access_token@,
        match id_token {
            Some(t) if t@.len() > 0 => res@.len() == 2 && res@[1].0 == TokenKind::Id && res@[1].1@ == t@,
            _ => res@.len() == 1,
        },
{
    let mut attempts: Vec<(TokenKind, String)> = Vec::new();
    attempts.push((TokenKind::Access, access_token.to_owned()));
    if let Some(t) = id_token {
        if !t.is_empty() {
            attempts.push((TokenKind::Id, t.to_owned()));
        }
    }
    attempts
}

/// Whether a failed launcher-data request is followed by the next
/// attempt: only a failure with the access token is.
pub fn retry_after_failure(kind: TokenKind) -> (res: bool)
    ensures
        res == (kind == TokenKind::Access),
{
    match kind {
        TokenKind::Access => true,
        TokenKind::Id => false,
    }
}

/// The headers that identify the official launcher to the account and
/// session services: its user agent, version and branch.
pub fn launcher_identity_headers() -> (res: Vec<(&'static str, &'static str)>)
    ensures
        res@.len() == 3,
        res@[0].0@ == "User-Agent"@ && res@[0].1@ == "hytale-launcher/2026.05.29-125f35f"@,
        res@[1].0@ == "X-Hytale-Launcher-Version"@ && res@[1].1@ == "2026.05.29-125f35f"@,
        res@[2].0@ == "X-Hytale-Launcher-Branch"@ && res@[2].1@ == "release"@,
{
    let mut headers: Vec<(&'static str, &'static str)> = Vec::new();
    headers.push(("User-Agent", "hytale-launcher/2026.05.29-125f35f"));
    headers.push(("X-Hytale-Launcher-Version", "2026.05.29-125f35f"));
    headers.push(("X-Hytale-Launcher-Branch", "release"));
    headers
}

// ── Laws ────────────────────────────────────────────────────────────────

/// A value without `%` and `+` decodes to itself.
pub proof fn law_plain_value_decodes_to_itself(s: Seq<char>)
    requires
        forall|i: int| 0 <= i < s.len() ==> s[i] != '%' && s[i] != '+',
    ensures
        url_decoded(s) == Some(s),
    decreases s.len(),
{
    if s.len() > 0 {
        law_plain_value_decodes_to_itself(s.drop_first());
        assert(seq![s[0]] + s.drop_first() =~= s);
    }
}

/// A percent-escape of a byte decodes to the character with that code,
/// whatever follows it.
pub proof fn law_percent_escape_decodes(hi: char, lo: char, rest: Seq<char>)
    requires
        hex_value(hi) is Some,
        hex_value(lo) is Some,
        url_decoded(rest) is Some,
    ensures
        url_decoded(seq!['%', hi, lo] + rest) == Some(
            seq![((hex_value(hi)->0 * 16 + hex_value(lo)->0) as u8) as char] + url_decoded(rest)->0,
        ),
{
    let s = seq!['%', hi, lo] + rest;
    assert(s.skip(3) =~= rest);
}

/// One step of reading: when the pairs at `x` in `a` and `y` in `b` are the
/// same and reading on after them agrees, reading from them agrees.
proof fn lemma_callback_values_step(
    a: Seq<Seq<char>>,
    x: int,
    b: Seq<Seq<char>>,
    y: int,
    c: Option<Seq<char>>,
    s: Option<Seq<char>>,
)
    requires
        0 <= x < a.len(),
        0 <= y < b.len(),
        a[x] == b[y],
        forall|c2: Option<Seq<char>>, s2: Option<Seq<char>>|
            #![trigger callback_values_from(a, x + 1, c2, s2)]
            callback_values_from(a, x + 1, c2, s2) == callback_values_from(b, y + 1, c2, s2),
    ensures
        callback_values_from(a, x, c, s) == callback_values_from(b, y, c, s),
{
    let key = before_first(a[x], '=');
    match after_first(a[x], '=') {
        None => {
            assert(callback_values_from(a, x + 1, c, s) == callback_values_from(b, y + 1, c, s));
        },
        Some(v) => {
            if key == "code"@ {
                if let Some(d) = url_decoded(v) {
                    assert(callback_values_from(a, x + 1, Some(d), s) == callback_values_from(b, y + 1, Some(d), s));
                }
            } else if key == "state"@ {
                if let Some(d) = url_decoded(v) {
                    assert(callback_values_from(a, x + 1, c, Some(d)) == callback_values_from(b, y + 1, c, Some(d)));
                }
            } else {
                assert(callback_values_from(a, x + 1, c, s) == callback_values_from(b, y + 1, c, s));
            }
        },
    }
}

/// Reading the query pairs of `a` from `x` gives what reading those of `b`
/// from `y` gives, whatever was found before, when the pairs that follow
/// are the same.
proof fn lemma_callback_values_same_rest(a: Seq<Seq<char>>, x: int, b: Seq<Seq<char>>, y: int)
    requires
        0 <= x <= a.len(),
        0 <= y <= b.len(),
        a.subrange(x, a.len() as int) == b.subrange(y, b.len() as int),
    ensures
        forall|c: Option<Seq<char>>, s: Option<Seq<char>>|
            #![trigger callback_values_from(a, x, c, s)]
            callback_values_from(a, x, c, s) == callback_values_from(b, y, c, s),
    decreases a.len() - x,
{
    assert(a.len() - x == b.len() - y) by {
        assert(a.subrange(x, a.len() as int).len() == b.subrange(y, b.len() as int).len());
    }
    if x < a.len() {
        assert(a[x] == a.subrange(x, a.len() as int)[0]);
        assert(b[y] == b.subrange(y, b.len() as int)[0]);
        assert(a.subrange(x + 1, a.len() as int) =~= a.subrange(x, a.len() as int).drop_first());
        assert(b.subrange(y + 1, b.len() as int) =~= b.subrange(y, b.len() as int).drop_first());
        lemma_callback_values_same_rest(a, x + 1, b, y + 1);
        assert forall|c: Option<Seq<char>>, s: Option<Seq<char>>|
            #![trigger callback_values_from(a, x, c, s)]
            callback_values_from(a, x, c, s) == callback_values_from(b, y, c, s) by {
            lemma_callback_values_step(a, x, b, y, c, s);
        }
    }
}

/// Reading from `i` up to an inserted pair that is neither `code` nor
/// `state` gives what reading without it gives.
proof fn lemma_other_pair_ignored_from(pairs: Seq<Seq<char>>, j: int, q: Seq<char>, i: int)
    requires
        0 <= i <= j <= pairs.len(),
        before_first(q, '=') != "code"@,
        before_first(q, '=') != "state"@,
    ensures
        forall|c: Option<Seq<char>>, s: Option<Seq<char>>|
            #![trigger callback_values_from(pairs.insert(j, q), i, c, s)]
            callback_values_from(pairs.insert(j, q), i, c, s) == callback_values_from(pairs, i, c, s),
    decreases j - i,
{
    let ins = pairs.insert(j, q);
    assert(ins.len() == pairs.len() + 1);
    if i == j {
        assert(ins[j] == q);
        assert(ins.subrange(j + 1, ins.len() as int) =~= pairs.subrange(j, pairs.len() as int));
        lemma_callback_values_same_rest(ins, j + 1, pairs, j);
        assert forall|c: Option<Seq<char>>, s: Option<Seq<char>>|
            #![trigger callback_values_from(pairs.insert(j, q), i, c, s)]
            callback_values_from(pairs.insert(j, q), i, c, s) == callback_values_from(pairs, i, c, s) by {
            assert(callback_values_from(ins, j + 1, c, s) == callback_values_from(pairs, j, c, s));
        }
    } else {
        assert(ins[i] == pairs[i]);
        lemma_other_pair_ignored_from(pairs, j, q, i + 1);
        assert forall|c: Option<Seq<char>>, s: Option<Seq<char>>|
            #![trigger callback_values_from(pairs.insert(j, q), i, c, s)]
            callback_values_from(pairs.insert(j, q), i, c, s) == callback_values_from(pairs, i, c, s) by {
            lemma_callback_values_step(ins, i, pairs, i, c, s);
        }
    }
}

/// A query pair whose key is neither `code` nor `state` changes neither
/// value: inserting it anywhere among the pairs leaves the result as it was.
pub proof fn law_other_pair_ignored(pairs: Seq<Seq<char>>, j: int, q: Seq<char>)
    requires
        0 <= j <= pairs.len(),
        before_first(q, '=') != "code"@,
        before_first(q, '=') != "state"@,
    ensures
        callback_values_from(pairs.insert(j, q), 0, None, None) == callback_values_from(pairs, 0, None, None),
{
    lemma_other_pair_ignored_from(pairs, j, q, 0);
}

/// Splitting text made of `x`, a separator and `y` gives the pieces of `x`
/// followed by those of `y`.
proof fn lemma_split_concat(x: Seq<char>, y: Seq<char>, sep: char, cur: Seq<char>)
    ensures
        split_from(x + seq![sep] + y, sep, cur) == split_from(x, sep, cur) + split_from(y, sep, Seq::empty()),
    decreases x.len(),
{
    let all = x + seq![sep] + y;
    if x.len() == 0 {
        assert(all =~= seq![sep] + y);
        assert(all.drop_first() =~= y);
    } else {
        assert(all[0] == x[0]);
        assert(all.drop_first() =~= x.drop_first() + seq![sep] + y);
        if x[0] == sep {
            lemma_split_concat(x.drop_first(), y, sep, Seq::empty());
            assert(split_from(all, sep, cur) =~= split_from(x, sep, cur) + split_from(y, sep, Seq::empty()));
        } else {
            lemma_split_concat(x.drop_first(), y, sep, cur.push(x[0]));
        }
    }
}

/// Text without the separator is a single piece.
proof fn lemma_split_single(q: Seq<char>, sep: char, cur: Seq<char>)
    requires
        !q.contains(sep),
    ensures
        split_from(q, sep, cur) == seq![cur + q],
    decreases q.len(),
{
    if q.len() == 0 {
        assert(cur + q =~= cur);
    } else {
        assert(q[0] != sep);
        assert(!q.drop_first().contains(sep)) by {
            if q.drop_first().contains(sep) {
                let k = choose|k: int| 0 <= k < q.drop_first().len() && q.drop_first()[k] == sep;
                assert(q[k + 1] == sep);
            }
        }
        lemma_split_single(q.drop_first(), sep, cur.push(q[0]));
        assert(cur.push(q[0]) + q.drop_first() =~= cur + q);
    }
}

/// In the query itself: a `key=value` pair whose key is neither `code` nor
/// `state`, put between two parts of the query or at its end, changes
/// neither value.
pub proof fn law_other_query_pair_ignored(a: Seq<char>, q: Seq<char>, b: Seq<char>)
    requires
        !q.contains('&'),
        before_first(q, '=') != "code"@,
        before_first(q, '=') != "state"@,
    ensures
        callback_values_from(split_on(a + seq!['&'] + q + seq!['&'] + b, '&'), 0, None, None)
            == callback_values_from(split_on(a + seq!['&'] + b, '&'), 0, None, None),
        callback_values_from(split_on(a + seq!['&'] + q, '&'), 0, None, None)
            == callback_values_from(split_on(a, '&'), 0, None, None),
{
    let e = Seq::<char>::empty();
    let pa = split_on(a, '&');
    lemma_split_concat(a, q + seq!['&'] + b, '&', e);
    assert(a + seq!['&'] + q + seq!['&'] + b =~= a + seq!['&'] + (q + seq!['&'] + b));
    lemma_split_concat(q, b, '&', e);
    lemma_split_single(q, '&', e);
    assert(e + q =~= q);
    lemma_split_concat(a, b, '&', e);
    let pb = split_on(b, '&');
    assert(pa + (seq![q] + pb) =~= (pa + pb).insert(pa.len() as int, q));
    law_other_pair_ignored(pa + pb, pa.len() as int, q);
    lemma_split_concat(a, q, '&', e);
    assert(pa + seq![q] =~= pa.insert(pa.len() as int, q));
    law_other_pair_ignored(pa, pa.len() as int, q);
}

} // verus!
