use dumbfi::date::Date;
use dumbfi::date::format_date;
use dumbfi::date::parse_date;
use dumbfi::money::parse_price;

fn day(year: u32, month: u32, day: u32) -> Date {
    Date { year, month, day }
}

#[test]
fn price_parsing_exact_values() {
    assert_eq!(parse_price("187.35"), Some(1873500));
    assert_eq!(parse_price("0.0001"), Some(1));
    assert_eq!(parse_price("0"), Some(0));
    assert_eq!(parse_price("412"), Some(4120000));
    assert_eq!(parse_price("003.5"), Some(35000));
    assert_eq!(parse_price("99.9999"), Some(999999));
}

#[test]
fn price_parsing_rejects_malformed_strings() {
    assert_eq!(parse_price(""), None);
    assert_eq!(parse_price("."), None);
    assert_eq!(parse_price("1."), None);
    assert_eq!(parse_price(".5"), None);
    assert_eq!(parse_price("1.2.3"), None);
    assert_eq!(parse_price("-1.0"), None);
    assert_eq!(parse_price("12a"), None);
    assert_eq!(parse_price("1.23456"), None);
    assert_eq!(parse_price("1 0"), None);
}

#[test]
fn price_parsing_rejects_values_beyond_range() {
    // u64::MAX is 18446744073709551615; scaled by 10000 this value cannot
    // be held, while the largest representable one can.
    assert_eq!(parse_price("1844674407370955.1615"), Some(u64::MAX));
    assert_eq!(parse_price("1844674407370955.1616"), None);
    assert_eq!(parse_price("99999999999999999999"), None);
}

#[test]
fn date_parsing_exact_values() {
    assert_eq!(parse_date("2024-01-01"), Some(day(2024, 1, 1)));
    assert_eq!(parse_date("1999-12-31"), Some(day(1999, 12, 31)));
    assert_eq!(parse_date("2024-02-29"), Some(day(2024, 2, 29)));
    assert_eq!(parse_date("2000-02-29"), Some(day(2000, 2, 29)));
}

#[test]
fn date_parsing_rejects_malformed_and_impossible_dates() {
    assert_eq!(parse_date(""), None);
    assert_eq!(parse_date("2024-1-1"), None);
    assert_eq!(parse_date("2024/01/01"), None);
    assert_eq!(parse_date("2024-13-01"), None);
    assert_eq!(parse_date("2024-00-10"), None);
    assert_eq!(parse_date("2024-04-31"), None);
    assert_eq!(parse_date("2023-02-29"), None);
    assert_eq!(parse_date("1900-02-29"), None);
    assert_eq!(parse_date("0000-01-01"), None);
    assert_eq!(parse_date("2024-01-01x"), None);
}

#[test]
fn date_formatting_round_trips() {
    for s in ["2024-01-01", "1999-12-31", "2024-02-29", "0001-01-01", "9999-12-31"] {
        let d = parse_date(s).unwrap();
        assert_eq!(format_date(&d), s);
    }
}

#[test]
fn next_day_handles_boundaries() {
    assert_eq!(day(2024, 1, 1).next_day(), day(2024, 1, 2));
    assert_eq!(day(2024, 1, 31).next_day(), day(2024, 2, 1));
    assert_eq!(day(2024, 2, 28).next_day(), day(2024, 2, 29));
    assert_eq!(day(2023, 2, 28).next_day(), day(2023, 3, 1));
    assert_eq!(day(2024, 2, 29).next_day(), day(2024, 3, 1));
    assert_eq!(day(2024, 12, 31).next_day(), day(2025, 1, 1));
    assert_eq!(day(2100, 2, 28).next_day(), day(2100, 3, 1));
}
