use find_path::weather::{get_weather_multiplier, WeatherInfo, MULTIPLIER_SCALE};

fn observation(feels_like: i64, condition: &str) -> WeatherInfo {
    WeatherInfo { temperature: feels_like, feels_like, condition: condition.to_string() }
}

#[test]
fn test_weather_multiplier_good_conditions() {
    let weather = observation(288_150, "Clear");
    let multiplier = get_weather_multiplier(&weather);
    assert!(multiplier < MULTIPLIER_SCALE);
}

#[test]
fn test_weather_multiplier_cold() {
    let weather = observation(280_150, "Clear");
    let multiplier = get_weather_multiplier(&weather);
    assert!(multiplier > MULTIPLIER_SCALE);
}

#[test]
fn test_weather_multiplier_rain() {
    let weather = observation(288_150, "Rain");
    let multiplier = get_weather_multiplier(&weather);
    assert!(multiplier > MULTIPLIER_SCALE);
}

#[test]
fn weather_multiplier_exact_values() {
    assert_eq!(get_weather_multiplier(&observation(288_150, "Clear")), 1);
    assert_eq!(get_weather_multiplier(&observation(280_150, "Clear")), 1_000_000);
}

#[test]
fn weather_multiplier_snow_and_thunderstorm() {
    assert_eq!(get_weather_multiplier(&observation(300_000, "Snow")), 1_000_000);
    assert_eq!(get_weather_multiplier(&observation(300_000, "Thunderstorm")), 1_000_000);
    // Matching is exact: other spellings do not precipitate.
    assert_eq!(get_weather_multiplier(&observation(300_000, "rain")), 1);
    assert_eq!(get_weather_multiplier(&observation(300_000, "Drizzle")), 1);
}

#[test]
fn weather_multiplier_around_fifty_five_fahrenheit() {
    // 55 F is 285.9277... K: at or below it the weather is unfavorable.
    assert_eq!(get_weather_multiplier(&observation(285_927, "Clear")), 1_000_000);
    assert_eq!(get_weather_multiplier(&observation(285_928, "Clear")), 1);
    // 273.15 K is 32 F.
    assert_eq!(get_weather_multiplier(&observation(273_150, "Clear")), 1_000_000);
}
