use ruh_time_tracker::time::calendar_days_count;
use ruh_time_tracker::time::format_chrono_duration;
use ruh_time_tracker::time::format_duration;
use ruh_time_tracker::time::format_number;
use ruh_time_tracker::time::get_days_from_month;

#[test]
fn pads_single_digits() {
    assert_eq!(format_number(0), "00");
    assert_eq!(format_number(5), "05");
    assert_eq!(format_number(9), "09");
}

#[test]
fn keeps_multi_digits() {
    assert_eq!(format_number(10), "10");
    assert_eq!(format_number(42), "42");
    assert_eq!(format_number(105), "105");
}

#[test]
fn formats_durations_as_clock_text() {
    assert_eq!(format_duration(0), " 00:00");
    assert_eq!(format_duration(59), " 00:00");
    assert_eq!(format_duration(60), " 00:01");
    assert_eq!(format_duration(3599), " 00:59");
    assert_eq!(format_duration(3600), " 01:00");
    assert_eq!(format_duration(3661), " 01:01");
    assert_eq!(format_duration(90 * 60), " 01:30");
    assert_eq!(format_duration(100 * 3600), " 100:00");
}

#[test]
fn negative_durations_read_as_zero() {
    assert_eq!(format_chrono_duration(-1), " 00:00");
    assert_eq!(format_chrono_duration(-7200), " 00:00");
    assert_eq!(format_chrono_duration(3660), " 01:01");
}

#[test]
fn month_lengths() {
    assert_eq!(get_days_from_month(2023, 1), 31);
    assert_eq!(get_days_from_month(2023, 2), 28);
    assert_eq!(get_days_from_month(2024, 2), 29);
    assert_eq!(get_days_from_month(1900, 2), 28);
    assert_eq!(get_days_from_month(2000, 2), 29);
    assert_eq!(get_days_from_month(2023, 4), 30);
    assert_eq!(get_days_from_month(2023, 12), 31);
}

#[test]
fn counts_calendar_days_between_instants() {
    assert_eq!(calendar_days_count(0, 0), 0);
    assert_eq!(calendar_days_count(100, 86399), 0);
    assert_eq!(calendar_days_count(86399, 86400), 1);
    assert_eq!(calendar_days_count(0, 3 * 86400 + 5), 3);
}
