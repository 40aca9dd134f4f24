use csrf::CsrfProtection;
use vstd::prelude::*;
use vstd::utf8::encode_utf8;

use crate::errors::{throw, ErrorKind, InstanceError};
use crate::global::CSRF_TTL;

verus! {

/// An instant in UTC, as the seconds since the Unix epoch and the
/// nanoseconds past that second.
#[derive(Debug, Clone, Copy, PartialEq, Eq, Structural)]
pub struct Timestamp {
    pub secs: i64,
    pub nanos: u32,
}

/// The first day that `chrono` can represent, `NaiveDate::MIN` (January
/// 1st of year -262143), counted from the common era.
pub open spec fn first_chrono_day() -> int {
    -95_746_129
}

/// The day of the Unix epoch, January 1st 1970, counted from the common
/// era.
pub open spec fn unix_epoch_day() -> int {
    719_163
}

/// `start` is an instant that `chrono::DateTime::from_timestamp` can
/// represent: its day lies between `NaiveDate::MIN` and `NaiveDate::MAX`,
/// and its nanoseconds are below one second, or below two within the last
/// second of a minute (a leap second).
pub open spec fn chrono_instant(start: Timestamp) -> bool {
    let day = start.secs / 86_400 + unix_epoch_day();
    &&& first_chrono_day() <= day <= crate::dates::last_chrono_day()
    &&& (start.nanos < 1_000_000_000 || (start.nanos < 2_000_000_000 && start.secs % 60 == 59))
}

/// What `base64::decode_config` with `URL_SAFE_NO_PAD` makes of `input`:
/// the decoded bytes, or `None` when `input` is not such an encoding.
pub uninterp spec fn b64url_decode_of(input: Seq<u8>) -> Option<Seq<u8>>;

/// What `base64::encode_config` with `URL_SAFE_NO_PAD` makes of `input`.
pub uninterp spec fn b64url_encode_of(input: Seq<u8>) -> Seq<char>;

/// The value that `csrf::AesGcmCsrfProtection::parse_cookie`, with the key
/// `key`, decrypts from the cookie `cookie`; `None` when it refuses it.
pub uninterp spec fn csrf_cookie_value_of(key: Seq<u8>, cookie: Seq<u8>) -> Option<Seq<u8>>;

/// The value that `csrf::AesGcmCsrfProtection::parse_token`, with the key
/// `key`, decrypts from the token `token`; `None` when it refuses it.
pub uninterp spec fn csrf_token_value_of(key: Seq<u8>, token: Seq<u8>) -> Option<Seq<u8>>;

/// Decodes URL-safe base64 without padding with `base64::decode_config`;
/// the outcome depends on the input alone, through `b64url_decode_of`. A
/// refusal carries the crate's error text.
#[verifier::external_body]
fn b64url_decode(input: &[u8]) -> (r: Result<Vec<u8>, String>)
    requires
        input@.len() + 3 <= usize::MAX,
    ensures
        r is Ok <==> b64url_decode_of(input@) is Some,
        r matches Ok(v) ==> b64url_decode_of(input@) == Some(v@),
{
    match base64::decode_config(input, base64::URL_SAFE_NO_PAD) {
        Ok(v) => Ok(v),
        Err(e) => Err(e.to_string()),
    }
}

/// The length of the base64 text of `n` bytes without padding: four
/// characters for each three bytes, and two or three for the one or two
/// bytes left over, as `base64::encoded_size` computes it.
pub open spec fn b64_unpadded_len(n: int) -> int {
    n / 3 * 4 + if n % 3 == 1 {
        2int
    } else if n % 3 == 2 {
        3int
    } else {
        0int
    }
}

/// Encodes bytes in URL-safe base64 without padding with
/// `base64::encode_config`: the text depends on the bytes alone, through
/// `b64url_encode_of`, and `base64::decode_config` with the same
/// configuration gives the bytes back.
#[verifier::external_body]
fn b64url_encode(input: &[u8]) -> (r: String)
    requires
        input@.len() / 3 * 4 + 3 <= usize::MAX,
    ensures
        r@ == b64url_encode_of(input@),
        r@.len() == b64_unpadded_len(input@.len() as int),
        b64url_decode_of(encode_utf8(r@)) == Some(input@),
{
    base64::encode_config(input, base64::URL_SAFE_NO_PAD)
}

/// Decrypts a CSRF cookie with `csrf::AesGcmCsrfProtection::parse_cookie`
/// under the key `key` and hands out its value; the outcome is
/// `csrf_cookie_value_of` of the key and the bytes, the decryption being a
/// function of them. As the crate's source shows, a cookie that is not 132
/// bytes long is refused. A refusal carries the crate's error text.
#[verifier::external_body]
fn csrf_parse_cookie(key: [u8; 32], cookie: &[u8]) -> (r: Result<Vec<u8>, String>)
    ensures
        r is Ok <==> csrf_cookie_value_of(key@, cookie@) is Some,
        r matches Ok(v) ==> csrf_cookie_value_of(key@, cookie@) == Some(v@),
        cookie@.len() != 132 ==> r is Err,
{
    match csrf::AesGcmCsrfProtection::from_key(key).parse_cookie(cookie) {
        Ok(c) => Ok(c.value().to_vec()),
        Err(e) => Err(e.to_string()),
    }
}

/// Decrypts a CSRF token with `csrf::AesGcmCsrfProtection::parse_token`
/// under the key `key` and hands out its value; the outcome is
/// `csrf_token_value_of` of the key and the bytes. As the crate's source
/// shows, a token that is not 124 bytes long is refused. A refusal carries
/// the crate's error text.
#[verifier::external_body]
fn csrf_parse_token(key: [u8; 32], token: &[u8]) -> (r: Result<Vec<u8>, String>)
    ensures
        r is Ok <==> csrf_token_value_of(key@, token@) is Some,
        r matches Ok(v) ==> csrf_token_value_of(key@, token@) == Some(v@),
        token@.len() != 124 ==> r is Err,
{
    match csrf::AesGcmCsrfProtection::from_key(key).parse_token(token) {
        Ok(t) => Ok(t.value().to_vec()),
        Err(e) => Err(e.to_string()),
    }
}

/// Checks a decrypted token value against a cookie with
/// `csrf::CsrfProtection::verify_token_pair`. That call takes the decrypted
/// cookie, whose expiry `csrf` keeps private, so the cookie is decrypted
/// here with `parse_cookie` to hand it over. As the crate's source shows,
/// the pair is accepted only when the token's value equals the cookie's
/// value (and the cookie has not expired by the system clock, which is not
/// stated: it depends on the clock).
#[verifier::external_body]
fn csrf_verify_pair(key: [u8; 32], token_value: &[u8], cookie: &[u8]) -> (r: bool)
    requires
        csrf_cookie_value_of(key@, cookie@) is Some,
    ensures
        r ==> csrf_cookie_value_of(key@, cookie@) == Some(token_value@),
{
    let protection = csrf::AesGcmCsrfProtection::from_key(key);
    match protection.parse_cookie(cookie) {
        Ok(c) => protection.verify_token_pair(&csrf::UnencryptedCsrfToken::new(token_value.to_vec()), &c),
        Err(_) => false,
    }
}

/// Draws a fresh token and its cookie with
/// `csrf::CsrfProtection::generate_token_pair` under the key `key`, the
/// cookie expiring after `ttl_seconds`, and hands out their encrypted
/// values. As the crate's source shows, the generation does not fail (its
/// random source never reports an error and the encryption of such short
/// texts succeeds), the token is 124 bytes long and the cookie 132, and
/// both carry the same random value, which `parse_token` and
/// `parse_cookie` decrypt again under the same key. The lifetime is kept to
/// at most that of the server's tokens, far from the bounds past which
/// `chrono` panics when it adds it to the clock.
#[verifier::external_body]
fn csrf_generate_pair(key: [u8; 32], ttl_seconds: i64) -> (r: Option<(Vec<u8>, Vec<u8>)>)
    requires
        0 <= ttl_seconds <= CSRF_TTL,
    ensures
        r is Some,
        r matches Some(p) ==> {
            &&& p.0@.len() == 124
            &&& p.1@.len() == 132
            &&& csrf_token_value_of(key@, p.0@) is Some
            &&& csrf_cookie_value_of(key@, p.1@) == csrf_token_value_of(key@, p.0@)
        },
{
    match csrf::AesGcmCsrfProtection::from_key(key).generate_token_pair(None, ttl_seconds) {
        Ok((token, cookie)) => Some((token.value().to_vec(), cookie.value().to_vec())),
        Err(_) => None,
    }
}

/// The whole seconds elapsed since `start` by the system clock, with
/// `chrono::DateTime::from_timestamp`, `chrono::Utc::now` and
/// `chrono::TimeDelta::num_seconds`. As `chrono`'s source shows,
/// `from_timestamp` gives `None` exactly when `start` is not an instant it
/// can represent; the subtraction does not fail. Nothing more is promised
/// of the value: it depends on the clock.
#[verifier::external_body]
fn seconds_since(start: Timestamp) -> (r: Option<i64>)
    ensures
        r is None <==> !chrono_instant(start),
{
    chrono::DateTime::from_timestamp(start.secs, start.nanos).map(|s| (chrono::Utc::now() - s).num_seconds())
}

/// The bytes that a text of URL-safe base64 without padding decodes to.
pub open spec fn decoded(text: Seq<char>) -> Option<Seq<u8>> {
    b64url_decode_of(encode_utf8(text))
}

/// Why a submitted CSRF token is not checked against the session's cookie,
/// if it is not.
pub open spec fn csrf_refusal(key: Seq<u8>, cookie_csrf: Option<Seq<char>>, post_csrf: Seq<char>) -> Option<
    ErrorKind,
> {
    match cookie_csrf {
        None => Some(ErrorKind::WarnNoCsrfCookie),
        Some(c) => match decoded(c) {
            None => Some(ErrorKind::WarnDecodeCsrfCookie),
            Some(cookie) => match decoded(post_csrf) {
                None => Some(ErrorKind::WarnDecodeCsrfToken),
                Some(token) => if csrf_cookie_value_of(key, cookie) is None {
                    Some(ErrorKind::WarnParseCsrfCookie)
                } else if csrf_token_value_of(key, token) is None {
                    Some(ErrorKind::WarnParseCsrfToken)
                } else {
                    None
                },
            },
        },
    }
}

/// The cookie's and the token's texts decode and decrypt under `key` to the
/// same value.
pub open spec fn csrf_values_match(key: Seq<u8>, cookie_csrf: Seq<char>, post_csrf: Seq<char>) -> bool {
    match (decoded(cookie_csrf), decoded(post_csrf)) {
        (Some(cookie), Some(token)) => {
            &&& csrf_token_value_of(key, token) is Some
            &&& csrf_cookie_value_of(key, cookie) == csrf_token_value_of(key, token)
        },
        _ => false,
    }
}

/// Checks the CSRF token sent with a submission against the cookie kept in
/// the session (`None` when the session has none), both encoded in
/// URL-safe base64 without padding and encrypted under `key`. The
/// refusals come in this order: no cookie, a cookie or a token that does
/// not decode, a cookie or a token that does not decrypt. Otherwise the
/// result says whether they match and the cookie is still valid: it is
/// `true` only when their decrypted values are equal.
pub fn verify_csrf_token(key: [u8; 32], cookie_csrf: Option<String>, post_csrf: &str) -> (r: Result<
    bool,
    InstanceError,
>)
    requires
        cookie_csrf matches Some(c) ==> encode_utf8(c@).len() + 3 <= usize::MAX,
        encode_utf8(post_csrf@).len() + 3 <= usize::MAX,
    ensures
        r is Ok <==> csrf_refusal(key@, cookie_csrf.deep_view(), post_csrf@) is None,
        r matches Err(e) ==> csrf_refusal(key@, cookie_csrf.deep_view(), post_csrf@) == Some(e.kind),
        r matches Ok(true) ==> (cookie_csrf.deep_view() matches Some(c) && csrf_values_match(key@, c, post_csrf@)),
{
    let cookie_csrf: String = match cookie_csrf {
        Some(v) => v,
        None => {
            return Err(throw(ErrorKind::WarnNoCsrfCookie, "CSRF cookie is missing".to_owned()));
        },
    };
    let cookie_bytes: Vec<u8> = match b64url_decode(cookie_csrf.as_str().as_bytes()) {
        Ok(v) => v,
        Err(msg) => {
            return Err(throw(ErrorKind::WarnDecodeCsrfCookie, msg));
        },
    };
    let token_bytes: Vec<u8> = match b64url_decode(post_csrf.as_bytes()) {
        Ok(v) => v,
        Err(msg) => {
            return Err(throw(ErrorKind::WarnDecodeCsrfToken, msg));
        },
    };
    match csrf_parse_cookie(key, cookie_bytes.as_slice()) {
        Ok(_) => {},
        Err(msg) => {
            return Err(throw(ErrorKind::WarnParseCsrfCookie, msg));
        },
    }
    let token_value: Vec<u8> = match csrf_parse_token(key, token_bytes.as_slice()) {
        Ok(v) => v,
        Err(msg) => {
            return Err(throw(ErrorKind::WarnParseCsrfToken, msg));
        },
    };
    Ok(csrf_verify_pair(key, token_value.as_slice(), cookie_bytes.as_slice()))
}

/// A fresh CSRF token and its cookie, encrypted under `key` and encoded in
/// URL-safe base64 without padding: the token for the client (166
/// characters), the cookie for the session (176). The pair always comes,
/// and it passes every refusal of `verify_csrf_token` under the same key,
/// its token and cookie decrypting to the same value.
pub fn new_csrf_pair(key: [u8; 32]) -> (r: Result<(String, String), InstanceError>)
    ensures
        r is Ok,
        r matches Ok(p) ==> {
            &&& exists|token: Seq<u8>, cookie: Seq<u8>|
                token.len() == 124 && cookie.len() == 132 && p.0@ == b64url_encode_of(token) && p.1@
                    == b64url_encode_of(cookie)
            &&& p.0@.len() == 166
            &&& p.1@.len() == 176
            &&& csrf_refusal(key@, Some(p.1@), p.0@) is None
            &&& csrf_values_match(key@, p.1@, p.0@)
        },
{
    match csrf_generate_pair(key, CSRF_TTL) {
        Some((token, cookie)) => {
            let t: String = b64url_encode(token.as_slice());
            let c: String = b64url_encode(cookie.as_slice());
            Ok((t, c))
        },
        None => Err(throw(ErrorKind::FatalGenerateCsrf, "CSRF token generation failed".to_owned())),
    }
}

/// The time taken to answer, read from the start time kept in the session
/// (`None` when the session has none): the whole seconds elapsed since, by
/// the system clock, refused when negative or beyond an `i32`, and when the
/// start is not an instant that `chrono` can represent.
pub fn check_duration(poll_start: Option<Timestamp>) -> (r: Result<i32, InstanceError>)
    ensures
        poll_start is None <==> (r matches Err(e) && e.kind == ErrorKind::WarnNoDurationCookie),
        poll_start matches Some(s) && !chrono_instant(s) ==> (r matches Err(e) && e.kind
            == ErrorKind::SevereDurationOverflow),
        r matches Err(e) ==> e.kind == ErrorKind::WarnNoDurationCookie || e.kind == ErrorKind::SevereDurationOverflow,
        r matches Ok(d) ==> d >= 0 && (poll_start matches Some(s) && chrono_instant(s)),
{
    let start = match poll_start {
        Some(v) => v,
        None => {
            return Err(throw(ErrorKind::WarnNoDurationCookie, "duration cookie is missing".to_owned()));
        },
    };
    match seconds_since(start) {
        Some(duration) => crate::submit::duration_to_db(duration),
        None => Err(throw(ErrorKind::SevereDurationOverflow, "duration start is out of range".to_owned())),
    }
}

} // verus!
