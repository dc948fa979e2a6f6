use speakhuman::i18n::Translations;
use speakhuman::precise::precisedelta_td;
use speakhuman::time::TimeDelta;

fn en() -> Translations {
    Translations::null()
}

#[test]
fn test_precisedelta_basic() {
    let td = TimeDelta::from_days_seconds_micros(2, 3633, 123000);
    assert_eq!(
        precisedelta_td(td, "seconds", &[], "%0.2f", &en()),
        "2 days, 1 hour and 33.12 seconds"
    );
}

#[test]
fn test_precisedelta_single_unit() {
    let td = TimeDelta::from_days_seconds_micros(0, 1, 0);
    assert_eq!(precisedelta_td(td, "seconds", &[], "%0.2f", &en()), "1 second");

    let td = TimeDelta::from_days_seconds_micros(0, 60, 0);
    assert_eq!(precisedelta_td(td, "seconds", &[], "%0.2f", &en()), "1 minute");

    let td = TimeDelta::from_days_seconds_micros(0, 3600, 0);
    assert_eq!(precisedelta_td(td, "seconds", &[], "%0.2f", &en()), "1 hour");
}

#[test]
fn test_precisedelta_suppress() {
    let td = TimeDelta::from_days_seconds_micros(2, 3633, 123000);
    assert_eq!(
        precisedelta_td(td, "seconds", &["days"], "%0.2f", &en()),
        "49 hours and 33.12 seconds"
    );
}

#[test]
fn test_precisedelta_zero() {
    let td = TimeDelta::from_days_seconds_micros(0, 0, 0);
    assert_eq!(precisedelta_td(td, "seconds", &[], "%0.2f", &en()), "0 seconds");
}

#[test]
fn test_precisedelta_rounding_carry() {
    // 999,999 microseconds round up to a whole second at two digits.
    let td = TimeDelta::from_days_seconds_micros(0, 0, 999_999);
    assert_eq!(precisedelta_td(td, "seconds", &[], "%0.2f", &en()), "1 second");

    // At minimum unit milliseconds the rounded 1000 milliseconds carry into
    // the seconds slot rather than rendering as "1000 milliseconds".
    let td = TimeDelta::from_days_seconds_micros(0, 0, 999_999);
    assert_eq!(
        precisedelta_td(td, "milliseconds", &[], "%0.2f", &en()),
        "1 second"
    );
}

#[test]
fn test_precisedelta_fractional() {
    let td = TimeDelta::from_days_seconds_micros(0, 1, 234_567);
    assert_eq!(precisedelta_td(td, "seconds", &[], "%0.2f", &en()), "1.23 seconds");
    assert_eq!(precisedelta_td(td, "seconds", &[], "%0.4f", &en()), "1.2346 seconds");
    assert_eq!(precisedelta_td(td, "seconds", &[], "%d", &en()), "1 second");
}

#[test]
fn test_precisedelta_zero_precision_ties() {
    // half-to-even at zero precision: 1.5 and 2.5 minutes round to 2,
    // 3.5 to 4
    let td = TimeDelta::from_days_seconds_micros(0, 90, 0);
    assert_eq!(precisedelta_td(td, "minutes", &[], "%.0f", &en()), "2 minutes");
    let td = TimeDelta::from_days_seconds_micros(0, 150, 0);
    assert_eq!(precisedelta_td(td, "minutes", &[], "%.0f", &en()), "2 minutes");
    let td = TimeDelta::from_days_seconds_micros(0, 210, 0);
    assert_eq!(precisedelta_td(td, "minutes", &[], "%.0f", &en()), "4 minutes");
}

#[test]
fn test_precisedelta_fractional_ties() {
    // half-to-even at two digits: 1.005 rounds down to the even 1.00,
    // 1.015 up to the even 1.02
    let td = TimeDelta::from_days_seconds_micros(0, 1, 5000);
    assert_eq!(precisedelta_td(td, "seconds", &[], "%0.2f", &en()), "1 second");
    let td = TimeDelta::from_days_seconds_micros(0, 1, 15000);
    assert_eq!(precisedelta_td(td, "seconds", &[], "%0.2f", &en()), "1.02 seconds");
}

#[test]
fn test_precisedelta_month_remainder_exact() {
    // an odd month quotient leaves a half-day remainder, which is carried
    // on exactly rather than dropped
    let td = TimeDelta::from_days_seconds_micros(31, 0, 0);
    assert_eq!(
        precisedelta_td(td, "hours", &[], "%0.2f", &en()),
        "1 month and 12 hours"
    );
    let td = TimeDelta::from_days_seconds_micros(364, 0, 0);
    assert_eq!(
        precisedelta_td(td, "hours", &[], "%0.2f", &en()),
        "11 months, 28 days and 12 hours"
    );
}

#[test]
fn test_precisedelta_carry_chain() {
    // 91 days, 86399 seconds at minimum unit minutes with "%.0f": the
    // rounded minutes reach sixty and the carry runs all the way up,
    // trading thirty-one displayed days for a third month
    let td = TimeDelta::from_days_seconds_micros(91, 86399, 0);
    assert_eq!(precisedelta_td(td, "minutes", &[], "%.0f", &en()), "3 months");
}

#[test]
fn test_precisedelta_unknown_unit() {
    let td = TimeDelta::from_days_seconds_micros(1, 2, 3);
    assert_eq!(
        precisedelta_td(td, "fortnights", &[], "%0.2f", &en()),
        "Unknown unit: fortnights"
    );
}

#[test]
fn test_precisedelta_unknown_suppress_ignored() {
    let td = TimeDelta::from_days_seconds_micros(0, 90, 0);
    assert_eq!(
        precisedelta_td(td, "seconds", &["fortnights"], "%0.2f", &en()),
        "1 minute and 30 seconds"
    );
}

#[test]
fn test_precisedelta_suppressed_minimum_walks_up() {
    let td = TimeDelta::from_days_seconds_micros(0, 90, 0);
    assert_eq!(
        precisedelta_td(td, "seconds", &["seconds"], "%0.2f", &en()),
        "1.50 minutes"
    );
}

#[test]
fn test_precisedelta_all_suppressed() {
    let td = TimeDelta::from_days_seconds_micros(0, 90, 0);
    let all = [
        "microseconds",
        "milliseconds",
        "seconds",
        "minutes",
        "hours",
        "days",
        "months",
        "years",
    ];
    assert_eq!(
        precisedelta_td(td, "seconds", &all, "%0.2f", &en()),
        "Minimum unit is suppressed and no suitable replacement was found"
    );
}

#[test]
fn test_precisedelta_grouped_years() {
    let td = TimeDelta::from_days_seconds_micros(365 * 1141, 0, 0);
    assert_eq!(
        precisedelta_td(td, "years", &[], "%0.2f", &en()),
        "1,141 years"
    );
    let td = TimeDelta::from_days_seconds_micros(1141, 0, 0);
    assert_eq!(precisedelta_td(td, "years", &[], "%0.2f", &en()), "3.13 years");
}

#[test]
fn test_precisedelta_conserves_across_uniform_units() {
    // 1 day + 1 hour + 1 minute + 1 second redistributes exactly when the
    // calendar units are suppressed.
    let td = TimeDelta::from_days_seconds_micros(1, 3661, 0);
    assert_eq!(
        precisedelta_td(td, "seconds", &["months", "years"], "%0.2f", &en()),
        "1 day, 1 hour, 1 minute and 1 second"
    );
    // With days suppressed as well, the whole day flows into hours.
    let td = TimeDelta::from_days_seconds_micros(1, 3661, 0);
    assert_eq!(
        precisedelta_td(td, "seconds", &["months", "years", "days"], "%0.2f", &en()),
        "25 hours, 1 minute and 1 second"
    );
}

#[test]
fn test_precisedelta_negative() {
    let td = TimeDelta::from_days_seconds_micros(0, -90, 0);
    assert_eq!(
        precisedelta_td(td, "seconds", &[], "%0.2f", &en()),
        "1 minute and 30 seconds"
    );
}

#[test]
fn test_precisedelta_months_years() {
    let td = TimeDelta::from_days_seconds_micros(500, 0, 0);
    assert_eq!(
        precisedelta_td(td, "days", &[], "%0.2f", &en()),
        "1 year, 4 months and 13 days"
    );
}
