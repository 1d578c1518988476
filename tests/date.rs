use lawscape::{parse_date, Date, DateParseError};

fn date(year: usize, month: usize, day: usize) -> Date {
    Date { year, month, day }
}

#[test]
fn slash_form() {
    assert_eq!(parse_date("2024/04/01"), Ok(date(2024, 4, 1)));
}

#[test]
fn hyphen_form() {
    assert_eq!(parse_date("1999-12-31"), Ok(date(1999, 12, 31)));
}

#[test]
fn compact_form() {
    assert_eq!(parse_date("20230115"), Ok(date(2023, 1, 15)));
}

#[test]
fn date_inside_other_text() {
    assert_eq!(parse_date("基準日:2020/02/29まで"), Ok(date(2020, 2, 29)));
}

#[test]
fn leftmost_occurrence_is_read() {
    assert_eq!(parse_date("x2001/01/01 2002/02/02"), Ok(date(2001, 1, 1)));
}

#[test]
fn slash_form_wins_over_earlier_compact_form() {
    assert_eq!(parse_date("20100101 2011/11/11"), Ok(date(2011, 11, 11)));
}

#[test]
fn month_out_of_range() {
    assert_eq!(parse_date("2024/13/01"), Err(DateParseError::OutOfRange));
}

#[test]
fn day_out_of_range() {
    assert_eq!(parse_date("2024-01-32"), Err(DateParseError::OutOfRange));
}

#[test]
fn zero_month_is_accepted() {
    assert_eq!(parse_date("20240000"), Ok(date(2024, 0, 0)));
}

#[test]
fn unsupported_forms() {
    assert_eq!(parse_date(""), Err(DateParseError::UnsupportedFormat));
    assert_eq!(parse_date("2024.01.01"), Err(DateParseError::UnsupportedFormat));
    assert_eq!(parse_date("2024/1/1"), Err(DateParseError::UnsupportedFormat));
    assert_eq!(parse_date("２０２４/０１/０１"), Err(DateParseError::UnsupportedFormat));
}

#[test]
fn built_from_fields() {
    assert_eq!(Date::gen_from_ad(1947, 5, 3), date(1947, 5, 3));
}
