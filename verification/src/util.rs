use vstd::prelude::*;

use base64::Engine;
use rand::RngCore;

verus! {

/// Whether `s` parses as an absolute URL (so it carries a scheme).
pub uninterp spec fn url_ok(s: Seq<char>) -> bool;

/// The `host[:port]` part of `s`, when `s` parses as a URL with a host;
/// the port is present only when the URL names one explicitly.
pub uninterp spec fn host_port_of(s: Seq<char>) -> Option<Seq<char>>;

/// The URL-safe base64 encoding of `bytes`, without padding.
pub uninterp spec fn b64url_of(bytes: Seq<u8>) -> Seq<char>;

/// Relies on `url::Url::parse`: it succeeds exactly on absolute URLs,
/// and its success depends on the input characters alone.
#[verifier::external_body]
pub fn url_parseable(s: &str) -> (r: bool)
    ensures
        r == url_ok(s@),
{
    url::Url::parse(s).is_ok()
}

/// Relies on `url::Url::parse`, `Url::host_str` and `Url::port`: together they
/// depend on the input characters alone. The body only joins host and port
/// with a colon, as `host:port` notation has it.
#[verifier::external_body]
pub fn url_host_port(s: &str) -> (r: Option<String>)
    ensures
        r.deep_view() == host_port_of(s@),
{
    let u = match url::Url::parse(s) {
        Ok(u) => u,
        Err(_) => return None,
    };
    let host = u.host_str()?;
    Some(match u.port() {
        Some(p) => format!("{}:{}", host, p),
        None => host.to_string(),
    })
}

/// Relies on `str::contains` with a `&str` pattern: true exactly when the
/// pattern occurs as a substring (UTF-8 is self-synchronizing, so byte-level
/// matches align with character boundaries).
#[verifier::external_body]
pub fn str_contains(hay: &str, needle: &str) -> (r: bool)
    ensures
        r == contains_sub(hay@, needle@),
{
    hay.contains(needle)
}

/// `needle` occurs as a contiguous run inside `hay`.
pub open spec fn contains_sub(hay: Seq<char>, needle: Seq<char>) -> bool {
    exists|i: int|
        0 <= i && i + needle.len() <= hay.len() && #[trigger] hay.subrange(i, i + needle.len())
            == needle
}

/// Relies on `std::time::SystemTime::now`; the result is converted to whole
/// milliseconds since the epoch, and clamped to zero for clocks set before it.
/// Nothing is promised of the clock beyond the sign.
#[verifier::external_body]
pub fn now_ms() -> (r: i64)
    ensures
        r >= 0,
{
    match std::time::SystemTime::now().duration_since(std::time::UNIX_EPOCH) {
        Ok(d) => {
            let ms = d.as_millis();
            if ms > i64::MAX as u128 {
                i64::MAX
            } else {
                ms as i64
            }
        },
        Err(_) => 0,
    }
}

/// Relies on `rand::thread_rng` and `rand::RngCore::fill_bytes`: nine bytes
/// from a cryptographically secure source. Nothing is promised of the values.
#[verifier::external_body]
pub fn random_bytes_9() -> (r: Vec<u8>)
    ensures
        r@.len() == 9,
{
    let mut bytes = vec![0u8; 9];
    rand::thread_rng().fill_bytes(&mut bytes);
    bytes
}

/// Relies on `base64::Engine::encode` with the `URL_SAFE_NO_PAD` engine: the
/// output is ASCII, four characters for every three bytes, rounded up, and
/// depends on the bytes alone.
#[verifier::external_body]
pub fn b64url_no_pad(bytes: &Vec<u8>) -> (r: String)
    ensures
        r@ == b64url_of(bytes@),
        r@.len() == (4 * bytes@.len() + 2) / 3,
{
    base64::engine::general_purpose::URL_SAFE_NO_PAD.encode(bytes.as_slice())
}

/// Relies on `PartialEq` on `str`: equal exactly when the bytes are, which
/// for valid UTF-8 is character-for-character equality.
#[verifier::external_body]
pub fn str_eq(a: &str, b: &str) -> (r: bool)
    ensures
        r == (a@ == b@),
{
    a == b
}

/// View of an optional string as an optional character sequence.
pub open spec fn opt_seq(a: Option<String>) -> Option<Seq<char>> {
    match a {
        Some(s) => Some(s@),
        None => None,
    }
}

/// Equality of optional strings, decided over their views.
pub fn opt_string_eq(a: &Option<String>, b: &Option<String>) -> (r: bool)
    ensures
        r == (opt_seq(*a) == opt_seq(*b)),
{
    match a {
        None => matches!(b, None),
        Some(x) => match b {
            Some(y) => *x == *y,
            None => false,
        },
    }
}

/// The later of two signed millisecond timestamps.
pub fn max_i64(a: i64, b: i64) -> (r: i64)
    ensures
        r == if a >= b { a as int } else { b as int },
{
    if a >= b {
        a
    } else {
        b
    }
}

/// Increment a usage counter without wrapping at the top of the range.
pub fn saturating_inc(t: i64) -> (r: i64)
    ensures
        r == spec_saturating_inc(t as int),
{
    if t == i64::MAX {
        t
    } else {
        t + 1
    }
}

/// `t + 1`, held at the top of the signed 64-bit range.
pub open spec fn spec_saturating_inc(t: int) -> int {
    if t == i64::MAX as int {
        t
    } else {
        t + 1
    }
}

/// Clone an optional string; the view is preserved.
pub fn clone_opt_string(a: &Option<String>) -> (r: Option<String>)
    ensures
        opt_seq(r) == opt_seq(*a),
{
    match a {
        Some(s) => Some(s.clone()),
        None => None,
    }
}

} // verus!
