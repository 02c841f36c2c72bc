//! The data of the weather service and of the configuration file.
use vstd::prelude::*;

verus! {

/// The answer of the weather service to a request for the current weather.
#[allow(non_snake_case)]
pub struct WeatherRoot {
    /// Status code: `"200"` on success.
    pub code: String,
    /// When the service last updated the data.
    pub updateTime: String,
    /// Link to the forecast web page.
    pub fxLink: String,
    /// The weather now.
    pub now: WeatherNow,
    /// Where the data comes from.
    pub refer: ReferInfo,
}

/// The weather observed now; the service gives every value as text.
#[allow(non_snake_case)]
pub struct WeatherNow {
    /// Time of observation.
    pub obsTime: String,
    /// Temperature.
    pub temp: String,
    /// Felt temperature.
    pub feelsLike: String,
    /// Icon code.
    pub icon: String,
    /// Description of the weather.
    pub text: String,
    /// Wind direction in degrees.
    pub wind360: String,
    /// Wind direction.
    pub windDir: String,
    /// Wind force on the Beaufort scale.
    pub windScale: String,
    /// Wind speed in km/h.
    pub windSpeed: String,
    /// Relative humidity in percent.
    pub humidity: String,
    /// Precipitation of the last hour.
    pub precip: String,
    /// Air pressure.
    pub pressure: String,
    /// Visibility in km.
    pub vis: String,
}

/// The sources and licences of the data.
pub struct ReferInfo {
    /// Data sources.
    pub sources: Vec<String>,
    /// Licences.
    pub license: Vec<String>,
}

/// How to reach the weather service.
pub struct WeatherConfig {
    /// Host of the service's API.
    pub host_api: String,
    /// The key sent with each request.
    pub api_key: String,
    /// The project's id at the service.
    pub api_id: String,
}

/// The whole configuration file.
pub struct AllConfig {
    /// The weather service's section.
    pub weather: WeatherConfig,
}

} // verus!
