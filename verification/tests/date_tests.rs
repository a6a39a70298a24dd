use cargo_new_release::date::{add_days, date_to_string, next_version_date, Date};
use cargo_new_release::version::Version;

#[test]
fn cadence_dates() {
    let v72 = Version { major: 0, minor: 72, patch: 0 };
    assert_eq!(next_version_date(&v72), "2023-07-13");
    let v79 = Version { major: 0, minor: 79, patch: 0 };
    assert_eq!(next_version_date(&v79), "2024-05-02");
    let v2 = Version { major: 0, minor: 2, patch: 0 };
    assert_eq!(next_version_date(&v2), "2015-06-25");
}

#[test]
fn add_days_steps_over_year_end() {
    let d = Date { year: 2015, month: 12, day: 31 };
    assert_eq!(add_days(&d, 1), Date { year: 2016, month: 1, day: 1 });
}

#[test]
fn add_days_handles_leap_february() {
    let d = Date { year: 2016, month: 2, day: 28 };
    assert_eq!(add_days(&d, 1), Date { year: 2016, month: 2, day: 29 });
    assert_eq!(add_days(&d, 2), Date { year: 2016, month: 3, day: 1 });
}

#[test]
fn add_days_handles_century_non_leap() {
    let d = Date { year: 2100, month: 2, day: 28 };
    assert_eq!(add_days(&d, 1), Date { year: 2100, month: 3, day: 1 });
}

#[test]
fn date_rendering_pads_month_and_day() {
    let d = Date { year: 2016, month: 2, day: 5 };
    assert_eq!(date_to_string(&d), "2016-02-05");
    let d2 = Date { year: 2023, month: 11, day: 30 };
    assert_eq!(date_to_string(&d2), "2023-11-30");
}
