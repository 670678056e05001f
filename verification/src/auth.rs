//! HMAC-SHA256 signing of Polymarket CLOB requests.
//!
//! The CLOB signs `timestamp + METHOD + path + body` with the base64-decoded
//! API secret and sends the base64 signature in the `POLY_HMAC_*` headers.
use vstd::prelude::*;
use vstd::string::StringExecFns;

use base64::Engine as _;
use hmac::Mac as _;

use crate::text::{i64_to_decimal, int_decimal};

verus! {

#[verifier::external_type_specification]
#[verifier::external_body]
pub struct ExDecodeError(base64::DecodeError);

#[verifier::external_type_specification]
#[verifier::external_body]
pub struct ExInvalidLength(hmac::digest::InvalidLength);

/// The bytes that base64's standard engine decodes from `text`, or none when
/// `text` is not valid standard base64.
pub uninterp spec fn base64_decoded(text: Seq<char>) -> Option<Seq<u8>>;

/// The standard (padded) base64 text of `bytes`.
pub uninterp spec fn base64_encoded(bytes: Seq<u8>) -> Seq<char>;

/// HMAC-SHA256 of the UTF-8 bytes of `message` under `key`.
pub uninterp spec fn hmac_sha256_tag(key: Seq<u8>, message: Seq<char>) -> Seq<u8>;

/// `str::to_uppercase` of `text`.
pub uninterp spec fn uppercased(text: Seq<char>) -> Seq<char>;

#[verifier::external_type_specification]
#[verifier::external_body]
pub struct ExSystemTime(std::time::SystemTime);

/// The time the system clock reads now (`SystemTime::now` of std). Nothing is
/// stated of it: it is whatever the clock reads.
#[verifier::external_body]
fn clock_now() -> (t: std::time::SystemTime) {
    std::time::SystemTime::now()
}

/// How long after the Unix epoch `t` lies (`SystemTime::duration_since` of
/// std, with `UNIX_EPOCH`); none where std reports `t` to be before the epoch.
/// Nothing is stated of the duration: the type is opaque here.
#[verifier::external_body]
fn since_unix_epoch(t: &std::time::SystemTime) -> (d: Option<std::time::Duration>) {
    match t.duration_since(std::time::UNIX_EPOCH) {
        Ok(d) => Some(d),
        Err(_) => None,
    }
}

/// The whole seconds of `d` (`Duration::as_secs` of std). Nothing is stated of
/// the value: the duration is opaque here.
#[verifier::external_body]
fn whole_seconds(d: &std::time::Duration) -> (secs: u64) {
    d.as_secs()
}

/// Whole seconds since the Unix epoch by the system clock; none when the
/// clock reads a time before the epoch.
fn seconds_since_epoch() -> (r: Option<u64>) {
    let now = clock_now();
    match since_unix_epoch(&now) {
        Some(d) => Some(whole_seconds(&d)),
        None => None,
    }
}

/// Decodes `text` with base64's `general_purpose::STANDARD` engine
/// (`Engine::decode`): the bytes it writes, or its `DecodeError`.
#[verifier::external_body]
fn base64_decode(text: &str) -> (r: Result<Vec<u8>, base64::DecodeError>)
    ensures
        match r {
            Ok(bytes) => base64_decoded(text@) == Some(bytes@),
            Err(_) => base64_decoded(text@) is None,
        },
{
    base64::engine::general_purpose::STANDARD.decode(text)
}

/// Encodes `bytes` with base64's `general_purpose::STANDARD` engine
/// (`Engine::encode`). It panics only when the encoded length overflows
/// `usize`, which the bound on the input rules out.
#[verifier::external_body]
fn base64_encode(bytes: &[u8]) -> (text: String)
    requires
        bytes@.len() <= usize::MAX / 2,
    ensures
        text@ == base64_encoded(bytes@),
{
    base64::engine::general_purpose::STANDARD.encode(bytes)
}

/// HMAC-SHA256 (`hmac::Hmac<sha2::Sha256>`) of `message`'s UTF-8 bytes under
/// `key`: `new_from_slice`, `update`, `finalize().into_bytes()`. HMAC accepts
/// keys of any length, and the source of `new_from_slice` always returns
/// `Ok`; the tag is the 32 bytes of a SHA-256 output.
#[verifier::external_body]
fn hmac_sha256(key: &[u8], message: &str) -> (r: Result<Vec<u8>, hmac::digest::InvalidLength>)
    ensures
        r is Ok,
        match r {
            Ok(tag) => tag@ == hmac_sha256_tag(key@, message@) && tag@.len() == 32,
            Err(_) => true,
        },
{
    let mut mac = hmac::Hmac::<sha2::Sha256>::new_from_slice(key)?;
    mac.update(message.as_bytes());
    Ok(mac.finalize().into_bytes().to_vec())
}

/// `str::to_uppercase` of std.
#[verifier::external_body]
fn to_uppercase(text: &str) -> (r: String)
    ensures
        r@ == uppercased(text@),
{
    text.to_uppercase()
}

/// Why request headers could not be signed.
#[derive(Clone, Copy, Debug, PartialEq, Eq, Structural)]
pub enum AuthError {
    /// The API secret is not valid standard base64.
    InvalidSecret,
    /// The HMAC key was refused.
    InvalidKeyLength,
    /// The system clock reads a time before the Unix epoch, or too far
    /// ahead for a signed 64-bit timestamp.
    ClockUnavailable,
}

/// The text that is signed: `timestamp + METHOD + path + body`.
pub open spec fn signed_message(timestamp: Seq<char>, method: Seq<char>, path: Seq<char>, body: Seq<char>) -> Seq<char> {
    timestamp + uppercased(method) + path + body
}

/// The views of a list of headers.
pub open spec fn header_views(v: Seq<(String, String)>) -> Seq<(Seq<char>, Seq<char>)> {
    v.map_values(|h: (String, String)| (h.0@, h.1@))
}

/// The four `POLY_HMAC_*` headers for a signature made at `timestamp`.
pub open spec fn hmac_headers(
    api_key: Seq<char>,
    secret: Seq<u8>,
    api_passphrase: Seq<char>,
    method: Seq<char>,
    path: Seq<char>,
    body: Seq<char>,
    timestamp: i64,
) -> Seq<(Seq<char>, Seq<char>)> {
    let ts = int_decimal(timestamp as int);
    seq![
        ("POLY_HMAC_KEY"@, api_key),
        ("POLY_HMAC_SIGNATURE"@, base64_encoded(hmac_sha256_tag(secret, signed_message(ts, method, path, body)))),
        ("POLY_HMAC_TIMESTAMP"@, ts),
        ("POLY_HMAC_PASSPHRASE"@, api_passphrase),
    ]
}

/// `r` is the outcome of signing at `timestamp`: the headers of
/// `hmac_headers` under the decoded secret, or `InvalidSecret` exactly when
/// the secret is not valid standard base64.
pub open spec fn signed_at(
    r: Result<Vec<(String, String)>, AuthError>,
    api_key: Seq<char>,
    api_secret: Seq<char>,
    api_passphrase: Seq<char>,
    method: Seq<char>,
    path: Seq<char>,
    body: Seq<char>,
    timestamp: i64,
) -> bool {
    match r {
        Ok(headers) => base64_decoded(api_secret) is Some && header_views(headers@) == hmac_headers(
            api_key, base64_decoded(api_secret)->0, api_passphrase, method, path, body, timestamp),
        Err(e) => base64_decoded(api_secret) is None && e == AuthError::InvalidSecret,
    }
}

/// Build the L2 HMAC headers required by the Polymarket CLOB API, for a
/// request signed at `timestamp` (Unix seconds). Fails exactly when the API
/// secret is not valid standard base64.
pub fn build_hmac_headers_at(
    api_key: &str,
    api_secret: &str,
    api_passphrase: &str,
    method: &str,
    path: &str,
    body: &str,
    timestamp: i64,
) -> (r: Result<Vec<(String, String)>, AuthError>)
    ensures
        signed_at(r, api_key@, api_secret@, api_passphrase@, method@, path@, body@, timestamp),
{
    let ts = i64_to_decimal(timestamp);
    let mut message = ts.clone();
    let upper = to_uppercase(method);
    message.append(upper.as_str());
    message.append(path);
    message.append(body);
    let secret = match base64_decode(api_secret) {
        Ok(bytes) => bytes,
        Err(_) => return Err(AuthError::InvalidSecret),
    };
    let tag = match hmac_sha256(secret.as_slice(), message.as_str()) {
        Ok(tag) => tag,
        Err(_) => return Err(AuthError::InvalidKeyLength),
    };
    let signature = base64_encode(tag.as_slice());
    let mut headers: Vec<(String, String)> = Vec::new();
    headers.push((String::from_str("POLY_HMAC_KEY"), String::from_str(api_key)));
    headers.push((String::from_str("POLY_HMAC_SIGNATURE"), signature));
    headers.push((String::from_str("POLY_HMAC_TIMESTAMP"), ts));
    headers.push((String::from_str("POLY_HMAC_PASSPHRASE"), String::from_str(api_passphrase)));
    assert(header_views(headers@) =~= hmac_headers(
        api_key@, secret@, api_passphrase@, method@, path@, body@, timestamp));
    Ok(headers)
}

/// Build the L2 HMAC headers required by the Polymarket CLOB API, signed now.
/// The CLOB uses HMAC-SHA256 over: timestamp + method + path + body.
/// The clock is read first: when it is unusable the result is
/// `ClockUnavailable`. Otherwise it fails exactly when the API secret is not
/// valid standard base64, and the headers are those of `build_hmac_headers_at`
/// for a non-negative timestamp (the clock's).
pub fn build_hmac_headers(
    api_key: &str,
    api_secret: &str,
    api_passphrase: &str,
    method: &str,
    path: &str,
    body: &str,
) -> (r: Result<Vec<(String, String)>, AuthError>)
    ensures
        base64_decoded(api_secret@) is None ==> r is Err,
        match r {
            Ok(headers) => base64_decoded(api_secret@) is Some && exists|t: i64| t >= 0
                && header_views(headers@) == #[trigger] hmac_headers(api_key@, base64_decoded(api_secret@)->0,
                    api_passphrase@, method@, path@, body@, t),
            Err(AuthError::InvalidSecret) => base64_decoded(api_secret@) is None,
            Err(AuthError::InvalidKeyLength) => false,
            Err(AuthError::ClockUnavailable) => true,
        },
{
    let clock = seconds_since_epoch();
    build_hmac_headers_by_clock(api_key, api_secret, api_passphrase, method, path, body, clock)
}

/// Build the L2 HMAC headers for a clock reading `clock` (whole seconds since
/// the Unix epoch, none when the clock could not be read): `ClockUnavailable`
/// exactly when there is no reading or it exceeds the largest `i64`;
/// otherwise the outcome of `build_hmac_headers_at` at that timestamp.
pub fn build_hmac_headers_by_clock(
    api_key: &str,
    api_secret: &str,
    api_passphrase: &str,
    method: &str,
    path: &str,
    body: &str,
    clock: Option<u64>,
) -> (r: Result<Vec<(String, String)>, AuthError>)
    ensures
        match clock {
            Some(secs) => if secs <= i64::MAX {
                signed_at(r, api_key@, api_secret@, api_passphrase@, method@, path@, body@, secs as i64)
            } else {
                r matches Err(AuthError::ClockUnavailable)
            },
            None => r matches Err(AuthError::ClockUnavailable),
        },
{
    let secs = match clock {
        Some(s) => s,
        None => return Err(AuthError::ClockUnavailable),
    };
    if secs > i64::MAX as u64 {
        return Err(AuthError::ClockUnavailable);
    }
    build_hmac_headers_at(api_key, api_secret, api_passphrase, method, path, body, secs as i64)
}

} // verus!
