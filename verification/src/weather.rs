//! Building the request for the current weather.
use vstd::prelude::*;
use vstd::string::StringExecFns;
use vstd::utf8::encode_utf8;
use reqwest::header::{HeaderValue, InvalidHeaderValue};
use crate::structs::WeatherConfig;

verus! {

#[verifier::external_type_specification]
#[verifier::external_body]
pub struct ExHeaderValue(HeaderValue);

#[verifier::external_type_specification]
#[verifier::external_body]
pub struct ExInvalidHeaderValue(InvalidHeaderValue);

/// The name of the header that carries the API key.
pub const API_KEY_HEADER: &'static str = "X-Qw-Api-Key";

/// A byte that may stand in a header value: a visible character, a space,
/// a byte above 127, or a tab.
pub open spec fn header_byte_ok(b: u8) -> bool {
    (b >= 32 && b != 127) || b == 9
}

/// Every byte of `bytes` may stand in a header value.
pub open spec fn header_bytes_ok(bytes: Seq<u8>) -> bool {
    forall|i: int| 0 <= i < bytes.len() ==> header_byte_ok(#[trigger] bytes[i])
}

/// The bytes a header value holds.
pub uninterp spec fn header_value_bytes(v: HeaderValue) -> Seq<u8>;

/// `HeaderValue::from_str` of reqwest's header module (the `http` crate):
/// it succeeds exactly when every byte of the UTF-8 text is allowed in a
/// header value, and the value then holds a copy of those bytes.
#[verifier::external_body]
fn header_value_from_str(s: &str) -> (r: Result<HeaderValue, InvalidHeaderValue>)
    ensures
        r is Ok <==> header_bytes_ok(encode_utf8(s@)),
        r matches Ok(v) ==> header_value_bytes(v) == encode_utf8(s@),
{
    HeaderValue::from_str(s)
}

/// Why the weather request could not be built.
pub enum WeatherError {
    /// The API key holds a byte that a header value cannot hold.
    InvalidHeaderValue,
}

/// What is sent to the weather service.
pub struct WeatherRequest {
    /// The address of the current weather of the configured location.
    pub url: String,
    /// The API key as the value of the header `API_KEY_HEADER`.
    pub api_key: HeaderValue,
}

/// The address of the current weather at the service on `host`.
pub open spec fn weather_url_spec(host: Seq<char>) -> Seq<char> {
    "https://"@ + host + "/v7/weather/now?location=101010100"@
}

/// The address holds the host whole, between the scheme and the path, for
/// a host of any length.
pub proof fn law_url_holds_host(host: Seq<char>)
    ensures
        weather_url_spec(host).len() == host.len() + 42,
        weather_url_spec(host).subrange(0, 8) == "https://"@,
        weather_url_spec(host).subrange(8, (8 + host.len()) as int) == host,
        weather_url_spec(host).subrange((8 + host.len()) as int, weather_url_spec(host).len() as int)
            == "/v7/weather/now?location=101010100"@,
{
    reveal_strlit("https://");
    reveal_strlit("/v7/weather/now?location=101010100");
    let u = weather_url_spec(host);
    assert(u.subrange(0, 8) =~= "https://"@);
    assert(u.subrange(8, (8 + host.len()) as int) =~= host);
    assert(u.subrange((8 + host.len()) as int, u.len() as int) =~= "/v7/weather/now?location=101010100"@);
}

/// The address of the current weather at the service on `host_api`.
pub fn weather_url(host_api: &str) -> (url: String)
    ensures
        url@ == weather_url_spec(host_api@),
        url@.len() == host_api@.len() + 42,
        url@.subrange(0, 8) == "https://"@,
        url@.subrange(8, (8 + host_api@.len()) as int) == host_api@,
        url@.subrange((8 + host_api@.len()) as int, url@.len() as int) == "/v7/weather/now?location=101010100"@,
{
    proof {
        law_url_holds_host(host_api@);
    }
    let mut url = String::from_str("https://");
    url.append(host_api);
    url.append("/v7/weather/now?location=101010100");
    url
}

/// Builds the request for the current weather from the configuration: the
/// API key must be a valid header value.
pub fn prepare_weather_request(config: &WeatherConfig) -> (r: Result<WeatherRequest, WeatherError>)
    ensures
        r is Ok <==> header_bytes_ok(encode_utf8(config.api_key@)),
        r matches Ok(req) ==> req.url@ == weather_url_spec(config.host_api@),
        r matches Ok(req) ==> req.url@.subrange(8, (8 + config.host_api@.len()) as int) == config.host_api@,
        r matches Ok(req) ==> req.url@.len() == config.host_api@.len() + 42,
        r matches Ok(req) ==> header_value_bytes(req.api_key) == encode_utf8(config.api_key@),
{
    match header_value_from_str(config.api_key.as_str()) {
        Ok(api_key) => {
            let url = weather_url(config.host_api.as_str());
            Ok(WeatherRequest { url, api_key })
        },
        Err(_) => Err(WeatherError::InvalidHeaderValue),
    }
}

} // verus!
