use blog::structs::WeatherConfig;
use blog::weather::{prepare_weather_request, weather_url, WeatherError, API_KEY_HEADER};

fn config(key: &str) -> WeatherConfig {
    WeatherConfig { host_api: "api.example.com".to_string(), api_key: key.to_string(), api_id: "id".to_string() }
}

#[test]
fn weather_url_names_host_and_location() {
    assert_eq!(weather_url("api.example.com"), "https://api.example.com/v7/weather/now?location=101010100");
    assert_eq!(weather_url(""), "https:///v7/weather/now?location=101010100");
}

#[test]
fn weather_request_with_valid_key() {
    let req = match prepare_weather_request(&config("abc 123\tx")) {
        Ok(r) => r,
        Err(_) => panic!("valid key refused"),
    };
    assert_eq!(req.url, "https://api.example.com/v7/weather/now?location=101010100");
    assert_eq!(req.api_key.as_bytes(), b"abc 123\tx");
    assert_eq!(API_KEY_HEADER, "X-Qw-Api-Key");
}

#[test]
fn weather_request_accepts_non_ascii_key() {
    assert!(prepare_weather_request(&config("clé")).is_ok());
}

#[test]
fn weather_request_rejects_control_bytes() {
    assert!(matches!(prepare_weather_request(&config("abc\n")), Err(WeatherError::InvalidHeaderValue)));
    assert!(matches!(prepare_weather_request(&config("a\u{7f}")), Err(WeatherError::InvalidHeaderValue)));
    assert!(prepare_weather_request(&config("")).is_ok());
}
