use wwsim::calendar::{days_hours_text, epoch_to_date, format_duration, month_to_num, num_to_month};

#[test]
fn month_names_round_trip() {
    assert_eq!(month_to_num("January"), Some(1));
    assert_eq!(month_to_num("December"), Some(12));
    assert_eq!(month_to_num("Smarch"), None);
    assert_eq!(num_to_month(5), "May");
    assert_eq!(num_to_month(13), "");
    for m in 1..=12u32 {
        assert_eq!(month_to_num(num_to_month(m)), Some(m));
    }
}

#[test]
fn durations_are_spelled_out() {
    assert_eq!(format_duration(0), "0 seconds");
    assert_eq!(format_duration(1), "1 second");
    assert_eq!(format_duration(3661), "1 hour, 1 minute, 1 second");
    assert_eq!(format_duration(7320), "2 hours, 2 minutes");
    assert_eq!(days_hours_text(0, 0), "less than 1 hour");
    assert_eq!(days_hours_text(3, 1), "3 days, 1 hour");
}

#[test]
fn dates_follow_the_epoch() {
    assert_eq!(epoch_to_date(0, 1, 2024), "January 2024");
    assert_eq!(epoch_to_date(13, 12, 2023), "January 2025");
}
