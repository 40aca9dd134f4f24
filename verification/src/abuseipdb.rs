//! Reading AbuseIPDB's answer about an address: its confidence score, or
//! why the answer cannot be used.

use vstd::prelude::*;

verus! {

/// What the body of an AbuseIPDB answer holds, as far as the score goes.
pub enum AbuseJson {
    /// The body is not UTF-8; the conversion error as `{:?}` shows it.
    NotUtf8(String),
    /// The body is not JSON; the parse error as `{:?}` shows it.
    NotJson(String),
    /// The JSON has no `data` key.
    NoData,
    /// `data` has no `abuseConfidenceScore` key.
    NoScore,
    /// The score, when it is an unsigned number that fits in a `u64`.
    Score(Option<u64>),
}

/// What the body `body` holds, read with `String::from_utf8`,
/// `serde_json::from_str` into a `serde_json::Value`, `Value::get` and
/// `Value::as_u64`.
pub uninterp spec fn abuse_json_of(body: Seq<u8>) -> AbuseJson;

/// Reads the body of an AbuseIPDB answer with `String::from_utf8`,
/// `serde_json::from_str`, `serde_json::Value::get` (the keys `data`, then
/// `abuseConfidenceScore`) and `serde_json::Value::as_u64`; the outcome
/// depends on the bytes alone, through `abuse_json_of`.
#[verifier::external_body]
fn abuse_json(body: &[u8]) -> (r: AbuseJson)
    ensures
        r == abuse_json_of(body@),
{
    let text = match String::from_utf8(body.to_vec()) {
        Ok(t) => t,
        Err(e) => return AbuseJson::NotUtf8(format!("{:?}", e)),
    };
    let json: serde_json::Value = match serde_json::from_str(&text) {
        Ok(v) => v,
        Err(e) => return AbuseJson::NotJson(format!("{:?}", e)),
    };
    match json.get("data") {
        None => AbuseJson::NoData,
        Some(data) => match data.get("abuseConfidenceScore") {
            None => AbuseJson::NoScore,
            Some(score) => AbuseJson::Score(score.as_u64()),
        },
    }
}

/// A header value can be read as text: it holds only visible ASCII
/// characters and tabulations, as `http::HeaderValue::to_str` asks.
pub open spec fn header_is_text(h: Seq<u8>) -> bool {
    forall|i: int| 0 <= i < h.len() ==> (32 <= #[trigger] h[i] < 127 || h[i] == 9)
}

/// The score of an AbuseIPDB answer with body `json` and rate-limit headers
/// `remaining` and `limit` (`None` when absent), capped at 100, or the
/// message of the first thing that fails, checked in this order: the body
/// as UTF-8, as JSON, its `data` key, its `abuseConfidenceScore` key, the
/// two headers (present, then readable as text), and the score as an
/// unsigned number.
pub open spec fn spec_abuse_reply(json: AbuseJson, remaining: Option<Seq<u8>>, limit: Option<Seq<u8>>) -> Result<
    int,
    Seq<char>,
> {
    match json {
        AbuseJson::NotUtf8(t) => Err("converting response body to utf8 failed: "@ + t@),
        AbuseJson::NotJson(t) => Err("parsing json from response body failed: "@ + t@),
        AbuseJson::NoData => Err("getting data key from json failed"@),
        AbuseJson::NoScore => Err("getting abuseConfidenceScore key from json failed"@),
        AbuseJson::Score(score) => match remaining {
            None => Err("getting remaining ratelimit from headers failed"@),
            Some(h) => if !header_is_text(h) {
                Err("converting remaining ratelimit to str failed: ToStrError { _priv: () }"@)
            } else {
                match limit {
                    None => Err("getting max ratelimit from headers failed"@),
                    Some(l) => if !header_is_text(l) {
                        Err("converting max ratelimit to str failed: ToStrError { _priv: () }"@)
                    } else {
                        match score {
                            None => Err("abuse score u64 conversion failed"@),
                            Some(n) => Ok(if n <= 100 { n as int } else { 100 }),
                        }
                    },
                }
            },
        },
    }
}

/// A text held in a `String`.
fn text(s: &str) -> (r: String)
    ensures
        r@ == s@,
{
    let mut r: String = String::new();
    r.append(s);
    r
}

/// Whether a header value can be read as text.
fn is_header_text(h: &[u8]) -> (r: bool)
    ensures
        r == header_is_text(h@),
{
    let mut i: usize = 0;
    while i < h.len()
        invariant
            i <= h@.len(),
            forall|j: int| 0 <= j < i ==> (32 <= #[trigger] h@[j] < 127 || h@[j] == 9),
        decreases h.len() - i,
    {
        if !((32 <= h[i] && h[i] < 127) || h[i] == 9) {
            return false;
        }
        i += 1;
    }
    true
}

/// Reads AbuseIPDB's answer about an address from its body and its two
/// rate-limit headers (`x-ratelimit-remaining` and `x-ratelimit-limit`,
/// `None` when absent): the confidence score capped at 100, or the message
/// of the first thing that fails.
pub fn read_abuse_reply(body: &[u8], remaining: Option<Vec<u8>>, limit: Option<Vec<u8>>) -> (r: Result<
    u16,
    String,
>)
    ensures
        r is Ok <==> spec_abuse_reply(abuse_json_of(body@), remaining.deep_view(), limit.deep_view()) is Ok,
        r matches Ok(n) ==> spec_abuse_reply(abuse_json_of(body@), remaining.deep_view(), limit.deep_view())
            == Ok::<int, Seq<char>>(n as int),
        r matches Err(m) ==> spec_abuse_reply(abuse_json_of(body@), remaining.deep_view(), limit.deep_view())
            == Err::<int, Seq<char>>(m@),
{
    let score: Option<u64> = match abuse_json(body) {
        AbuseJson::NotUtf8(t) => {
            let mut m: String = text("converting response body to utf8 failed: ");
            m.append(t.as_str());
            return Err(m);
        },
        AbuseJson::NotJson(t) => {
            let mut m: String = text("parsing json from response body failed: ");
            m.append(t.as_str());
            return Err(m);
        },
        AbuseJson::NoData => {
            return Err(text("getting data key from json failed"));
        },
        AbuseJson::NoScore => {
            return Err(text("getting abuseConfidenceScore key from json failed"));
        },
        AbuseJson::Score(s) => s,
    };
    match remaining {
        None => {
            return Err(text("getting remaining ratelimit from headers failed"));
        },
        Some(h) => {
            assert(h.deep_view() =~= h@);
            if !is_header_text(h.as_slice()) {
                return Err(text("converting remaining ratelimit to str failed: ToStrError { _priv: () }"));
            }
        },
    }
    match limit {
        None => {
            return Err(text("getting max ratelimit from headers failed"));
        },
        Some(l) => {
            assert(l.deep_view() =~= l@);
            if !is_header_text(l.as_slice()) {
                return Err(text("converting max ratelimit to str failed: ToStrError { _priv: () }"));
            }
        },
    }
    match score {
        None => Err(text("abuse score u64 conversion failed")),
        Some(n) => Ok(crate::submit::cap_abuse_score(n)),
    }
}

} // verus!
