use speakhuman::i18n::Translations;
use speakhuman::time::{
    date_needs_year, natural_day_phrase, naturaldelta_td, naturaltime_delta, TimeDelta, Unit,
};

fn en() -> Translations {
    Translations::null()
}

#[test]
fn test_unit_ordering() {
    assert!(Unit::Seconds < Unit::Minutes);
    assert!(Unit::Minutes < Unit::Hours);
    assert!(Unit::Years > Unit::Days);
}

#[test]
fn test_unit_all() {
    let all = Unit::all();
    assert_eq!(all.len(), 8);
    assert_eq!(all[0], Unit::Microseconds);
    assert_eq!(all[7], Unit::Years);
    for w in all.windows(2) {
        assert!(w[0] < w[1]);
    }
}

#[test]
fn test_unit_from_str() {
    assert_eq!(Unit::from_str("seconds"), Ok(Unit::Seconds));
    assert_eq!(Unit::from_str("SECONDS"), Ok(Unit::Seconds));
    assert_eq!(Unit::from_str("MicroSeconds"), Ok(Unit::Microseconds));
    assert_eq!(
        Unit::from_str("fortnights"),
        Err("Unknown unit: fortnights".to_string())
    );
}

#[test]
fn test_normalization() {
    let td = TimeDelta::from_days_seconds_micros(0, 90, 0);
    assert_eq!(td.days, 0);
    assert_eq!(td.seconds, 90);
    assert_eq!(td.microseconds, 0);

    let td = TimeDelta::from_days_seconds_micros(0, 90000, 1_500_000);
    assert_eq!(td.days, 1);
    assert_eq!(td.seconds, 3601);
    assert_eq!(td.microseconds, 500_000);

    let td = TimeDelta::from_days_seconds_micros(0, -1, 0);
    assert_eq!(td.days, -1);
    assert_eq!(td.seconds, 86399);
    assert_eq!(td.microseconds, 0);

    let td = TimeDelta::from_days_seconds_micros(0, 0, -1);
    assert_eq!(td.days, -1);
    assert_eq!(td.seconds, 86399);
    assert_eq!(td.microseconds, 999_999);
}

#[test]
fn test_abs() {
    let td = TimeDelta::from_days_seconds_micros(0, -90, 0).abs();
    assert_eq!(td.days, 0);
    assert_eq!(td.seconds, 90);
    assert_eq!(td.microseconds, 0);
}

#[test]
fn test_naturaldelta_basic() {
    let td = TimeDelta::from_days_seconds_micros(7, 0, 0);
    assert_eq!(naturaldelta_td(td, true, "seconds", &en()), "7 days");
}

#[test]
fn test_naturaldelta_moment() {
    let td = TimeDelta::from_days_seconds_micros(0, 0, 0);
    assert_eq!(naturaldelta_td(td, true, "seconds", &en()), "a moment");
}

#[test]
fn test_naturaldelta_seconds() {
    let td = TimeDelta::from_days_seconds_micros(0, 1, 0);
    assert_eq!(naturaldelta_td(td, true, "seconds", &en()), "a second");

    let td = TimeDelta::from_days_seconds_micros(0, 30, 0);
    assert_eq!(naturaldelta_td(td, true, "seconds", &en()), "30 seconds");
}

#[test]
fn test_naturaldelta_minutes() {
    let td = TimeDelta::from_days_seconds_micros(0, 120, 0);
    assert_eq!(naturaldelta_td(td, true, "seconds", &en()), "2 minutes");
}

#[test]
fn test_naturaldelta_hours() {
    let td = TimeDelta::from_days_seconds_micros(0, 3600, 0);
    assert_eq!(naturaldelta_td(td, true, "seconds", &en()), "an hour");
}

#[test]
fn test_naturaldelta_years() {
    let td = TimeDelta::from_days_seconds_micros(365 * 2 + 35, 0, 0);
    assert_eq!(naturaldelta_td(td, true, "seconds", &en()), "2 years");
}

#[test]
fn test_naturaldelta_large_years() {
    let td = TimeDelta::from_days_seconds_micros(365 * 1141, 0, 0);
    assert_eq!(naturaldelta_td(td, true, "seconds", &en()), "1,141 years");
}

#[test]
fn test_naturaldelta_months() {
    let td = TimeDelta::from_days_seconds_micros(40, 0, 0);
    assert_eq!(naturaldelta_td(td, true, "seconds", &en()), "a month");

    let td = TimeDelta::from_days_seconds_micros(92, 0, 0);
    assert_eq!(naturaldelta_td(td, true, "seconds", &en()), "3 months");

    let td = TimeDelta::from_days_seconds_micros(92, 0, 0);
    assert_eq!(naturaldelta_td(td, false, "seconds", &en()), "92 days");
}

#[test]
fn test_naturaldelta_year_and_days() {
    let td = TimeDelta::from_days_seconds_micros(365 + 95, 0, 0);
    assert_eq!(naturaldelta_td(td, true, "seconds", &en()), "1 year, 3 months");

    let td = TimeDelta::from_days_seconds_micros(365 + 10, 0, 0);
    assert_eq!(naturaldelta_td(td, true, "seconds", &en()), "1 year, 10 days");

    let td = TimeDelta::from_days_seconds_micros(365, 0, 0);
    assert_eq!(naturaldelta_td(td, true, "seconds", &en()), "a year");
}

#[test]
fn test_naturaldelta_negative() {
    let td = TimeDelta::from_days_seconds_micros(0, -120, 0);
    assert_eq!(naturaldelta_td(td, true, "seconds", &en()), "2 minutes");
}

#[test]
fn test_naturaldelta_unknown_unit() {
    let td = TimeDelta::from_days_seconds_micros(7, 0, 0);
    assert_eq!(
        naturaldelta_td(td, true, "fortnights", &en()),
        "Unknown unit: fortnights"
    );
}

#[test]
fn test_naturaldelta_unsupported_unit() {
    let td = TimeDelta::from_days_seconds_micros(7, 0, 0);
    assert_eq!(
        naturaldelta_td(td, true, "hours", &en()),
        "Minimum unit 'hours' not supported"
    );
}

#[test]
fn test_microseconds() {
    let td = TimeDelta::from_days_seconds_micros(0, 0, 1);
    assert_eq!(naturaldelta_td(td, true, "microseconds", &en()), "1 microsecond");

    let td = TimeDelta::from_days_seconds_micros(0, 0, 4);
    assert_eq!(naturaldelta_td(td, true, "microseconds", &en()), "4 microseconds");
}

#[test]
fn test_milliseconds() {
    let td = TimeDelta::from_days_seconds_micros(0, 0, 1000);
    assert_eq!(naturaldelta_td(td, true, "milliseconds", &en()), "1 millisecond");

    let td = TimeDelta::from_days_seconds_micros(0, 0, 4000);
    assert_eq!(naturaldelta_td(td, true, "milliseconds", &en()), "4 milliseconds");
}

#[test]
fn test_naturaldelta_translated() {
    let t = Translations {
        messages: vec![("a moment".to_string(), "un momento".to_string())],
        plurals: vec![(
            "%d day".to_string(),
            vec!["%d dia".to_string(), "%d dias".to_string()],
        )],
        nplurals: 2,
        thousands_sep: ".".to_string(),
    };
    let td = TimeDelta::from_days_seconds_micros(0, 0, 0);
    assert_eq!(naturaldelta_td(td, true, "seconds", &t), "un momento");
    let td = TimeDelta::from_days_seconds_micros(7, 0, 0);
    assert_eq!(naturaldelta_td(td, true, "seconds", &t), "7 dias");
    let td = TimeDelta::from_days_seconds_micros(365 * 1141, 0, 0);
    assert_eq!(naturaldelta_td(td, true, "seconds", &t), "1.141 years");
}

#[test]
fn test_naturaldelta_identical_inputs() {
    let td = TimeDelta::from_days_seconds_micros(2, 3633, 123000);
    let a = naturaldelta_td(td, true, "seconds", &en());
    let b = naturaldelta_td(td, true, "seconds", &en());
    assert_eq!(a, b);
}

#[test]
fn test_natural_day_phrase() {
    let t = en();
    assert_eq!(natural_day_phrase(0, &t), Some("today".to_string()));
    assert_eq!(natural_day_phrase(1, &t), Some("tomorrow".to_string()));
    assert_eq!(natural_day_phrase(-1, &t), Some("yesterday".to_string()));
    assert_eq!(natural_day_phrase(2, &t), None);
    assert_eq!(natural_day_phrase(-30, &t), None);
}

#[test]
fn test_date_needs_year() {
    assert!(date_needs_year(152));
    assert!(date_needs_year(-152));
    assert!(date_needs_year(i64::MIN));
    assert!(!date_needs_year(151));
    assert!(!date_needs_year(-151));
    assert!(!date_needs_year(0));
}

#[test]
fn test_naturaltime_past() {
    let td = TimeDelta::from_days_seconds_micros(0, 30, 0);
    assert_eq!(
        naturaltime_delta(td, false, true, "seconds", &en()),
        "30 seconds ago"
    );
}

#[test]
fn test_naturaltime_future() {
    let td = TimeDelta::from_days_seconds_micros(0, 30, 0);
    assert_eq!(
        naturaltime_delta(td, true, true, "seconds", &en()),
        "30 seconds from now"
    );
}

#[test]
fn test_naturaltime_now() {
    let td = TimeDelta::from_days_seconds_micros(0, 0, 0);
    assert_eq!(naturaltime_delta(td, false, true, "seconds", &en()), "now");
}
