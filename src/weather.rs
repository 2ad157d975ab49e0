use vstd::prelude::*;

verus! {

/// Multipliers and effective costs are expressed in thousandths of a unit.
pub const MULTIPLIER_SCALE: u64 = 1000;

/// Multiplier for outdoor edges in favorable weather (0.001).
pub const FAVORABLE_MULTIPLIER: u64 = 1;

/// Multiplier for outdoor edges in unfavorable weather (1000.0).
pub const UNFAVORABLE_MULTIPLIER: u64 = 1_000_000;

/// An immutable weather observation. Temperatures are in millikelvin.
pub struct WeatherInfo {
    pub temperature: i64,
    pub feels_like: i64,
    pub condition: String,
}

/// Five thousand times the Fahrenheit value of a temperature given in millikelvin:
/// `5000 * ((k - 273.15) * 9/5 + 32)`, which is exact in integers.
pub open spec fn fahrenheit_x5000(millikelvin: int) -> int {
    9 * (millikelvin - 273150) + 160000
}

/// The feels-like temperature is strictly above 55 degrees Fahrenheit.
pub open spec fn is_warm(millikelvin: int) -> bool {
    fahrenheit_x5000(millikelvin) > 5000 * 55
}

/// The condition is one of the precipitating categories (exact match).
pub open spec fn is_precipitating(condition: Seq<char>) -> bool {
    condition == "Rain"@ || condition == "Snow"@ || condition == "Thunderstorm"@
}

/// The multiplier, in thousandths, that a weather observation gives outdoor edges.
pub open spec fn weather_multiplier(w: WeatherInfo) -> int {
    if is_warm(w.feels_like as int) && !is_precipitating(w.condition@) {
        FAVORABLE_MULTIPLIER as int
    } else {
        UNFAVORABLE_MULTIPLIER as int
    }
}

fn is_precipitation(condition: &String) -> (r: bool)
    ensures
        r == is_precipitating(condition@),
{
    let rain = String::from_str("Rain");
    let snow = String::from_str("Snow");
    let storm = String::from_str("Thunderstorm");
    *condition == rain || *condition == snow || *condition == storm
}

/// The cost multiplier, in thousandths, for outdoor edges under the given weather:
/// 1 (that is 0.001) when the feels-like temperature is above 55 degrees Fahrenheit
/// and nothing precipitates, 1 000 000 (that is 1000.0) otherwise.
pub fn get_weather_multiplier(weather: &WeatherInfo) -> (r: u64)
    ensures
        r == weather_multiplier(*weather),
        r < MULTIPLIER_SCALE <==> (is_warm(weather.feels_like as int)
            && !is_precipitating(weather.condition@)),
{
    let f5000: i128 = 9 * (weather.feels_like as i128 - 273150) + 160000;
    let precipitation = is_precipitation(&weather.condition);
    if f5000 > 5000 * 55 && !precipitation {
        FAVORABLE_MULTIPLIER
    } else {
        UNFAVORABLE_MULTIPLIER
    }
}

} // verus!
