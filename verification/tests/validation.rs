use chrono::Datelike;
use chrono::NaiveDate;
use rolling_absences::validate::partition_periods;
use rolling_absences::validate::period_is_valid;
use rolling_absences::Date;
use rolling_absences::MAX_DAY;
use rolling_absences::MIN_DAY;

fn d(year: i32, month: u32, day: u32) -> Date {
    let nd = NaiveDate::from_ymd_opt(year, month, day).unwrap();
    Date { days: nd.num_days_from_ce() as i64 }
}

#[test]
fn test_partition_keeps_valid_periods() {
    let periods = vec![
        (d(2023, 1, 1), d(2023, 1, 10)),
        (d(2023, 5, 15), d(2023, 5, 20)),
    ];
    let (valid, invalid) = partition_periods(&periods);
    assert_eq!(valid, periods);
    assert!(invalid.is_empty());
}

#[test]
fn test_partition_drops_reversed_period() {
    // The period whose end date precedes its start date is dropped.
    let periods = vec![
        (d(2023, 1, 1), d(2023, 1, 10)),
        (d(2023, 6, 1), d(2023, 5, 20)),
    ];
    let (valid, invalid) = partition_periods(&periods);
    assert_eq!(valid, vec![(d(2023, 1, 1), d(2023, 1, 10))]);
    assert_eq!(invalid, vec![(d(2023, 6, 1), d(2023, 5, 20))]);
}

#[test]
fn test_period_is_valid_accepts_single_day() {
    let p = (d(2023, 10, 15), d(2023, 10, 15));
    assert!(period_is_valid(&p));
}

#[test]
fn test_period_is_valid_rejects_reversed() {
    let p = (d(2023, 10, 20), d(2023, 10, 15));
    assert!(!period_is_valid(&p));
}

#[test]
fn test_period_is_valid_rejects_out_of_range() {
    let too_late = (Date { days: MAX_DAY }, Date { days: MAX_DAY + 1 });
    assert!(!period_is_valid(&too_late));
    let too_early = (Date { days: MIN_DAY - 1 }, Date { days: MIN_DAY });
    assert!(!period_is_valid(&too_early));
}
