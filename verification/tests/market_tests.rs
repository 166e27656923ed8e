use dumbfi::date::Date;
use dumbfi::market::LoadError;
use dumbfi::market::Market;
use dumbfi::market::RawRow;

fn row(date: &str, ticker: &str, price: &str) -> RawRow {
    RawRow { date: date.to_string(), ticker: ticker.to_string(), price: price.to_string() }
}

fn day(year: u32, month: u32, day: u32) -> Date {
    Date { year, month, day }
}

#[test]
fn test_new_market_is_empty() {
    let market = Market::new();
    assert_eq!(market.get_price("2024-01-01", "AAPL"), None);
    assert_eq!(market.get_price("2024-01-01", "MSFT"), None);
}

#[test]
fn load_valid_rows() {
    let mut market = Market::new();
    let rows = vec![
        row("2024-01-01", "AAPL", "187.35"),
        row("2024-01-01", "MSFT", "412.67"),
        row("2024-01-01", "GOOGL", "178.42"),
        row("2024-01-02", "AAPL", "185.50"),
        row("2024-01-02", "MSFT", "410.25"),
        row("2024-01-02", "GOOGL", "180.10"),
    ];
    assert!(market.load(&rows).is_ok());
    assert_eq!(market.get_price("2024-01-01", "AAPL"), Some(1873500));
    assert_eq!(market.get_price("2024-01-01", "MSFT"), Some(4126700));
    assert_eq!(market.get_price("2024-01-01", "GOOGL"), Some(1784200));
    assert_eq!(market.get_price("2024-01-02", "AAPL"), Some(1855000));
    assert_eq!(market.get_price("2024-01-02", "MSFT"), Some(4102500));
    assert_eq!(market.get_price("2024-01-02", "GOOGL"), Some(1801000));
}

#[test]
fn load_replaces_existing_data() {
    let mut market = Market::new();
    let first = vec![row("2024-01-01", "AAPL", "100.0"), row("2024-01-01", "MSFT", "200.0")];
    market.load(&first).unwrap();
    assert_eq!(market.get_price("2024-01-01", "AAPL"), Some(1000000));
    assert_eq!(market.get_price("2024-01-01", "MSFT"), Some(2000000));

    let second = vec![row("2024-01-02", "AAPL", "150.0"), row("2024-01-02", "GOOGL", "250.0")];
    market.load(&second).unwrap();
    assert_eq!(market.get_price("2024-01-01", "AAPL"), None);
    assert_eq!(market.get_price("2024-01-01", "MSFT"), None);
    assert_eq!(market.get_price("2024-01-02", "AAPL"), Some(1500000));
    assert_eq!(market.get_price("2024-01-02", "GOOGL"), Some(2500000));
}

#[test]
fn load_bad_price_rejects_batch_and_keeps_store() {
    let mut market = Market::new();
    market.load(&vec![row("2024-01-01", "AAPL", "100.0")]).unwrap();
    let bad = vec![row("2024-01-02", "AAPL", "110.0"), row("2024-01-02", "MSFT", "oops")];
    assert_eq!(market.load(&bad), Err(LoadError::MalformedInput));
    // The failed batch left the store untouched.
    assert_eq!(market.get_price("2024-01-01", "AAPL"), Some(1000000));
    assert_eq!(market.get_price("2024-01-02", "AAPL"), None);
}

#[test]
fn load_bad_date_rejects_batch() {
    let mut market = Market::new();
    let bad = vec![row("2024-13-01", "AAPL", "100.0")];
    assert_eq!(market.load(&bad), Err(LoadError::MalformedInput));
    let bad2 = vec![row("not-a-date", "AAPL", "100.0")];
    assert_eq!(market.load(&bad2), Err(LoadError::MalformedInput));
}

#[test]
fn get_price_with_unparsable_date_is_absent() {
    let mut market = Market::new();
    market.load(&vec![row("2024-01-01", "AAPL", "100.0")]).unwrap();
    assert_eq!(market.get_price("2024-1-1", "AAPL"), None);
    assert_eq!(market.get_price("yesterday", "AAPL"), None);
    assert_eq!(market.get_price("2024-01-01", "AAPL"), Some(1000000));
}

#[test]
fn last_write_wins_on_duplicate_keys() {
    let mut market = Market::new();
    let rows = vec![
        row("2024-01-01", "AAPL", "100.0"),
        row("2024-01-01", "AAPL", "105.5"),
        row("2024-01-01", "AAPL", "101.25"),
    ];
    market.load(&rows).unwrap();
    assert_eq!(market.get_price("2024-01-01", "AAPL"), Some(1012500));
}

#[test]
fn has_any_price_iff_some_instrument_quoted() {
    let mut market = Market::new();
    let rows = vec![row("2024-01-01", "AAPL", "100.0"), row("2024-01-03", "MSFT", "200.0")];
    market.load(&rows).unwrap();
    assert!(market.has_any_price(&day(2024, 1, 1)));
    assert!(!market.has_any_price(&day(2024, 1, 2)));
    assert!(market.has_any_price(&day(2024, 1, 3)));
    assert!(!market.has_any_price(&day(2024, 1, 4)));
    // Agreement with single-day range scans over every instrument.
    for d in [day(2024, 1, 1), day(2024, 1, 2), day(2024, 1, 3), day(2024, 1, 4)] {
        let any_range = !market.range("AAPL", &d, &d).is_empty()
            || !market.range("MSFT", &d, &d).is_empty();
        assert_eq!(any_range, market.has_any_price(&d));
    }
}

#[test]
fn range_is_date_ordered_and_inclusive() {
    let mut market = Market::new();
    let rows = vec![
        row("2024-01-05", "AAPL", "105.0"),
        row("2024-01-01", "AAPL", "101.0"),
        row("2024-01-03", "AAPL", "103.0"),
        row("2024-01-02", "MSFT", "202.0"),
        row("2024-01-09", "AAPL", "109.0"),
    ];
    market.load(&rows).unwrap();
    let scan = market.range("AAPL", &day(2024, 1, 1), &day(2024, 1, 5));
    assert_eq!(scan.len(), 3);
    assert_eq!(scan[0].date, day(2024, 1, 1));
    assert_eq!(scan[0].price, 1010000);
    assert_eq!(scan[1].date, day(2024, 1, 3));
    assert_eq!(scan[1].price, 1030000);
    assert_eq!(scan[2].date, day(2024, 1, 5));
    assert_eq!(scan[2].price, 1050000);
    assert!(scan.iter().all(|e| e.ticker == "AAPL"));
    // Empty result, not an error, when nothing matches.
    assert!(market.range("GOOGL", &day(2024, 1, 1), &day(2024, 1, 9)).is_empty());
    assert!(market.range("AAPL", &day(2024, 1, 6), &day(2024, 1, 8)).is_empty());
}

#[test]
fn get_all_dates_sorted_and_distinct() {
    let mut market = Market::new();
    let rows = vec![
        row("2024-01-03", "AAPL", "1"),
        row("2024-01-01", "MSFT", "2"),
        row("2024-01-03", "MSFT", "3"),
        row("2024-01-02", "AAPL", "4"),
    ];
    market.load(&rows).unwrap();
    assert_eq!(market.get_all_dates(), vec!["2024-01-01", "2024-01-02", "2024-01-03"]);
}

#[test]
fn get_tickers_for_date_sorted() {
    let mut market = Market::new();
    let rows = vec![
        row("2024-01-01", "MSFT", "1"),
        row("2024-01-01", "AAPL", "2"),
        row("2024-01-01", "GOOGL", "3"),
        row("2024-01-02", "ZM", "4"),
    ];
    market.load(&rows).unwrap();
    assert_eq!(market.get_tickers_for_date("2024-01-01"), vec!["AAPL", "GOOGL", "MSFT"]);
    assert_eq!(market.get_tickers_for_date("2024-01-02"), vec!["ZM"]);
    assert!(market.get_tickers_for_date("2024-01-03").is_empty());
    assert!(market.get_tickers_for_date("garbage").is_empty());
}

#[test]
fn load_is_idempotent() {
    let rows = vec![
        row("2024-01-01", "AAPL", "187.35"),
        row("2024-01-02", "AAPL", "185.50"),
        row("2024-01-01", "MSFT", "412.67"),
    ];
    let mut once = Market::new();
    once.load(&rows).unwrap();
    let mut twice = Market::new();
    twice.load(&rows).unwrap();
    twice.load(&rows).unwrap();
    assert_eq!(once.get_all_dates(), twice.get_all_dates());
    for d in ["2024-01-01", "2024-01-02"] {
        assert_eq!(once.get_tickers_for_date(d), twice.get_tickers_for_date(d));
        for t in ["AAPL", "MSFT"] {
            assert_eq!(once.get_price(d, t), twice.get_price(d, t));
        }
    }
}

fn strs(cells: &[&str]) -> Vec<String> {
    cells.iter().map(|c| c.to_string()).collect()
}

#[test]
fn load_table_valid_table() {
    let mut market = Market::new();
    let header = strs(&["Date", "AAPL", "MSFT", "GOOGL"]);
    let records = vec![
        strs(&["2024-01-01", "187.35", "412.67", "178.42"]),
        strs(&["2024-01-02", "185.50", "410.25", "180.10"]),
    ];
    assert!(market.load_table(&header, &records).is_ok());
    assert_eq!(market.get_price("2024-01-01", "AAPL"), Some(1873500));
    assert_eq!(market.get_price("2024-01-02", "GOOGL"), Some(1801000));
}

#[test]
fn load_table_skips_empty_cells() {
    let mut market = Market::new();
    let header = strs(&["Date", "AAPL", "MSFT", "GOOGL"]);
    let records = vec![
        strs(&["2024-01-01", "187.35", "", "178.42"]),
        strs(&["2024-01-02", "185.50", "410.25", ""]),
    ];
    assert!(market.load_table(&header, &records).is_ok());
    assert_eq!(market.get_price("2024-01-01", "AAPL"), Some(1873500));
    assert_eq!(market.get_price("2024-01-01", "GOOGL"), Some(1784200));
    assert_eq!(market.get_price("2024-01-02", "AAPL"), Some(1855000));
    assert_eq!(market.get_price("2024-01-02", "MSFT"), Some(4102500));
    assert_eq!(market.get_price("2024-01-01", "MSFT"), None);
    assert_eq!(market.get_price("2024-01-02", "GOOGL"), None);
}

#[test]
fn load_table_rejects_unparsable_cells() {
    let mut market = Market::new();
    let header = strs(&["Date", "AAPL"]);
    let records = vec![strs(&["2024-01-01", "not-a-number"])];
    assert_eq!(market.load_table(&header, &records), Err(LoadError::MalformedInput));
    // A record whose date never carries a price is skipped whole.
    let records2 = vec![strs(&["Format"])];
    assert!(market.load_table(&header, &records2).is_ok());
    assert_eq!(market.get_price("Format", "AAPL"), None);
    assert!(market.get_all_dates().is_empty());
}
