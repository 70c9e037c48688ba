use zerolaunch::dates::{date_matches, is_date_current, CalendarDate};

fn day(year: i32, month: u32, day: u32) -> CalendarDate {
    CalendarDate { year, month, day }
}

#[test]
fn parsed_date_equal_to_today() {
    assert!(date_matches(Some((2024, 3, 9)), day(2024, 3, 9)));
    assert!(!date_matches(Some((2024, 3, 9)), day(2024, 3, 10)));
    assert!(!date_matches(None, day(2024, 3, 9)));
}

#[test]
fn date_text_against_today() {
    assert!(is_date_current("2024-03-09", day(2024, 3, 9)));
    assert!(!is_date_current("2024-03-09", day(2024, 9, 3)));
    assert!(!is_date_current("2024-02-30", day(2024, 3, 1)));
    assert!(!is_date_current("not a date", day(2024, 3, 9)));
}
