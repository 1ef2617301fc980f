use chrono::Datelike;
use chrono::NaiveDate;
use rolling_absences::calculate_rolling_absences;
use rolling_absences::Date;
use rolling_absences::MAX_DAY;

fn d(year: i32, month: u32, day: u32) -> Date {
    let nd = NaiveDate::from_ymd_opt(year, month, day).unwrap();
    Date { days: nd.num_days_from_ce() as i64 }
}

#[test]
fn test_calculate_single_absence() {
    let periods = vec![(d(2023, 4, 1), d(2023, 4, 10))]; // 10 days
    let results = calculate_rolling_absences(&periods);
    assert_eq!(results.len(), 1);
    assert_eq!(results[0].total_days_in_window, 10);
    assert_eq!(results[0].window_start, d(2022, 4, 10));
    assert_eq!(results[0].window_end, d(2023, 4, 10));
}

#[test]
fn test_calculate_multiple_separate_absences() {
    let periods = vec![
        (d(2023, 1, 1), d(2023, 1, 10)), // 10 days
        (d(2023, 8, 1), d(2023, 8, 20)), // 20 days
    ];
    let results = calculate_rolling_absences(&periods);
    assert_eq!(results.len(), 2);

    // For the first period, its window only contains itself.
    assert_eq!(results[0].total_days_in_window, 10);
    assert_eq!(results[0].window_end, d(2023, 1, 10));

    // For the second period, its window contains both.
    assert_eq!(results[1].total_days_in_window, 30); // 10 + 20
    assert_eq!(results[1].window_end, d(2023, 8, 20));
}

#[test]
fn test_calculate_overlapping_absences() {
    let periods = vec![
        (d(2023, 3, 1), d(2023, 3, 15)),  // 15 days
        (d(2023, 3, 10), d(2023, 3, 25)), // 16 days
    ];
    let results = calculate_rolling_absences(&periods);
    assert_eq!(results.len(), 2);

    // Total unique days are from 3/1 to 3/25 = 25 days.
    // Both periods are within each other's 365-day window.
    assert_eq!(results[0].total_days_in_window, 15);
    assert_eq!(results[1].total_days_in_window, 25);
}

#[test]
fn test_absence_outside_365_day_window() {
    let periods = vec![
        (d(2021, 5, 1), d(2021, 5, 10)), // 10 days, old
        (d(2023, 8, 1), d(2023, 8, 20)), // 20 days, recent
    ];
    let results = calculate_rolling_absences(&periods);
    assert_eq!(results.len(), 2);

    // For the first period, its window only sees itself.
    assert_eq!(results[0].total_days_in_window, 10);
    assert_eq!(results[0].window_end, d(2021, 5, 10));

    // For the second period, its window starts on 2022-08-20.
    // The first period (in 2021) is outside this window.
    assert_eq!(results[1].total_days_in_window, 20);
    assert_eq!(results[1].window_start, d(2022, 8, 20));
    assert_eq!(results[1].window_end, d(2023, 8, 20));
}

#[test]
fn test_absence_partially_in_window() {
    let periods = vec![
        (d(2022, 8, 15), d(2022, 8, 25)), // 11 days total
        (d(2023, 8, 20), d(2023, 8, 30)), // 11 days total
    ];
    let results = calculate_rolling_absences(&periods);
    assert_eq!(results.len(), 2);

    let periods = vec![
        (d(2022, 8, 25), d(2022, 9, 5)),  // 12 days total
        (d(2023, 8, 30), d(2023, 9, 10)), // 12 days total
    ];
    let results = calculate_rolling_absences(&periods);

    // The window for the second period is 2022-09-10 to 2023-09-10;
    // the first period ends before it, so only the second one's
    // 12 days are counted.
    assert_eq!(results[1].total_days_in_window, 12);
}

#[test]
fn test_empty_input_yields_empty_output() {
    let periods: Vec<(Date, Date)> = Vec::new();
    let results = calculate_rolling_absences(&periods);
    assert!(results.is_empty());
}

#[test]
fn test_single_one_day_period_counts_one() {
    let periods = vec![(d(2023, 7, 4), d(2023, 7, 4))];
    let results = calculate_rolling_absences(&periods);
    assert_eq!(results.len(), 1);
    assert_eq!(results[0].total_days_in_window, 1);
}

#[test]
fn test_repeat_call_is_identical() {
    let periods = vec![
        (d(2023, 3, 1), d(2023, 3, 15)),
        (d(2021, 5, 1), d(2021, 5, 10)),
        (d(2023, 3, 10), d(2023, 3, 25)),
    ];
    let first = calculate_rolling_absences(&periods);
    let second = calculate_rolling_absences(&periods);
    assert_eq!(first, second);
}

#[test]
fn test_order_preserved_with_unsorted_input() {
    // Input deliberately out of order: results must echo it, not the
    // internally sorted order.
    let periods = vec![
        (d(2023, 8, 1), d(2023, 8, 20)),
        (d(2021, 5, 1), d(2021, 5, 10)),
        (d(2023, 1, 1), d(2023, 1, 10)),
    ];
    let results = calculate_rolling_absences(&periods);
    assert_eq!(results.len(), 3);
    for (i, p) in periods.iter().enumerate() {
        assert_eq!(results[i].absence_start, p.0);
        assert_eq!(results[i].absence_end, p.1);
    }
}

#[test]
fn test_window_anchored_on_each_end_date() {
    let periods = vec![
        (d(2020, 2, 1), d(2020, 3, 1)), // spans 2020-02-29: leap year
        (d(2023, 6, 10), d(2023, 6, 12)),
    ];
    let results = calculate_rolling_absences(&periods);
    for r in &results {
        assert_eq!(r.window_end, r.absence_end);
        let end = NaiveDate::from_num_days_from_ce_opt(r.absence_end.days as i32).unwrap();
        let expected_start = end - chrono::Duration::days(365);
        assert_eq!(r.window_start.days, expected_start.num_days_from_ce() as i64);
    }
}

#[test]
fn test_adjacent_periods_merge() {
    // Gap of zero days: 2023-01-06 starts the day after 2023-01-05 ends,
    // so the two periods form one 10-day span.
    let periods = vec![
        (d(2023, 1, 1), d(2023, 1, 5)),
        (d(2023, 1, 6), d(2023, 1, 10)),
    ];
    let results = calculate_rolling_absences(&periods);
    assert_eq!(results[1].total_days_in_window, 10);
}

#[test]
fn test_two_day_gap_does_not_merge() {
    // 2023-01-08 leaves the gap day 2023-01-06..07 uncovered; both
    // periods still fall in the second window, so their lengths add.
    let periods = vec![
        (d(2023, 1, 1), d(2023, 1, 5)),
        (d(2023, 1, 8), d(2023, 1, 10)),
    ];
    let results = calculate_rolling_absences(&periods);
    assert_eq!(results[0].total_days_in_window, 5);
    assert_eq!(results[1].total_days_in_window, 8); // 5 + 3
}

#[test]
fn test_duplicate_periods_counted_once() {
    let periods = vec![
        (d(2023, 2, 1), d(2023, 2, 10)),
        (d(2023, 2, 1), d(2023, 2, 10)),
    ];
    let results = calculate_rolling_absences(&periods);
    assert_eq!(results.len(), 2);
    assert_eq!(results[0].total_days_in_window, 10);
    assert_eq!(results[1].total_days_in_window, 10);
}

#[test]
fn test_largest_supported_date() {
    // The supported range's upper end, beyond any real calendar date.
    let top = Date { days: MAX_DAY };
    let periods = vec![(top, top)];
    let results = calculate_rolling_absences(&periods);
    assert_eq!(results.len(), 1);
    assert_eq!(results[0].total_days_in_window, 1);
    assert_eq!(results[0].window_start.days, MAX_DAY - 365);
}
