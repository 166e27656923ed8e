use dumbfi::date::Date;
use dumbfi::ledger::Ledger;
use dumbfi::ledger::LedgerError;
use dumbfi::market::Market;
use dumbfi::market::RawRow;
use dumbfi::money::SCALE;

fn row(date: &str, ticker: &str, price: &str) -> RawRow {
    RawRow { date: date.to_string(), ticker: ticker.to_string(), price: price.to_string() }
}

fn day(year: u32, month: u32, day: u32) -> Date {
    Date { year, month, day }
}

// 1.0 of cash or shares in fixed-point units.
fn fp(units: u64) -> u64 {
    units * SCALE
}

#[test]
fn deposit_increases_cash_and_rejects_zero() {
    let mut ledger = Ledger::from_cash(fp(100));
    assert!(ledger.deposit(fp(25)).is_ok());
    assert_eq!(ledger.cash, fp(125));
    assert_eq!(ledger.deposit(0), Err(LedgerError::InvalidAmount));
    assert_eq!(ledger.cash, fp(125));
}

#[test]
fn buy_debits_exact_cost_and_appends_lot() {
    let mut ledger = Ledger::from_cash(fp(1000));
    assert!(ledger.buy("AAPL", fp(1), fp(100)).is_ok());
    assert_eq!(ledger.cash, fp(900));
    assert!(ledger.buy("AAPL", fp(2), fp(110)).is_ok());
    assert_eq!(ledger.cash, fp(680));
    let summary = ledger.holdings_summary();
    assert_eq!(summary.len(), 1);
    assert_eq!(summary[0].ticker, "AAPL");
    assert_eq!(summary[0].total_shares, fp(3) as u128);
    assert_eq!(summary[0].lot_count, 2);
}

#[test]
fn buy_rejects_insufficient_cash_without_change() {
    // A purchase of 5 shares at 300.0 against cash 1000.0 is rejected.
    let mut ledger = Ledger::from_cash(fp(1000));
    let r = ledger.buy("AAPL", fp(5), fp(300));
    assert_eq!(r, Err(LedgerError::InsufficientCash));
    assert_eq!(ledger.cash, fp(1000));
    assert!(ledger.holdings_summary().is_empty());
}

#[test]
fn buy_rejects_zero_shares() {
    let mut ledger = Ledger::from_cash(fp(1000));
    assert_eq!(ledger.buy("AAPL", 0, fp(100)), Err(LedgerError::InvalidAmount));
    assert_eq!(ledger.cash, fp(1000));
    assert!(ledger.holdings_summary().is_empty());
}

#[test]
fn buy_sequence_cash_equals_initial_minus_accepted_costs() {
    let mut ledger = Ledger::from_cash(fp(1000));
    // (shares, price, accepted cost): the third request exceeds the cash
    // left at its turn and must be a rejected no-op.
    let calls: [(u64, u64, u64); 4] =
        [(fp(1), fp(400), fp(400)), (fp(2), fp(200), fp(400)), (fp(1), fp(500), 0), (
            fp(4),
            fp(50),
            fp(200),
        )];
    let mut accepted: u64 = 0;
    for (shares, price, cost) in calls {
        let r = ledger.buy("TICK", shares, price);
        assert_eq!(r.is_ok(), cost > 0);
        accepted += cost;
    }
    assert_eq!(ledger.cash, fp(1000) - accepted);
    assert_eq!(ledger.cash, 0);
}

#[test]
fn add_lot_skips_cash_gate() {
    let mut ledger = Ledger::from_cash(0);
    assert!(ledger.add_lot("MSFT", fp(10), fp(250)).is_ok());
    assert_eq!(ledger.cash, 0);
    let summary = ledger.holdings_summary();
    assert_eq!(summary.len(), 1);
    assert_eq!(summary[0].total_shares, fp(10) as u128);
    assert_eq!(ledger.add_lot("MSFT", 0, fp(250)), Err(LedgerError::InvalidAmount));
}

#[test]
fn value_at_with_no_lots_equals_cash() {
    let market = Market::new();
    let ledger = Ledger::from_cash(fp(777));
    for d in [day(2024, 1, 1), day(1999, 12, 31), day(2024, 2, 29)] {
        let v = ledger.value_at(&market, &d);
        assert_eq!(v.total, fp(777) as u128);
        assert_eq!(v.missing, 0);
    }
}

#[test]
fn value_at_marks_to_market_and_counts_missing() {
    let mut market = Market::new();
    market
        .load(&vec![row("2024-01-02", "AAPL", "110.0"), row("2024-01-02", "MSFT", "400.0")])
        .unwrap();
    let mut ledger = Ledger::from_cash(fp(1000));
    ledger.buy("AAPL", fp(2), fp(100)).unwrap();
    ledger.buy("GOOGL", fp(1), fp(150)).unwrap();
    // Cash is 1000 - 200 - 150 = 650; AAPL marks at 110, GOOGL has no
    // price on the date and contributes zero, reported as missing.
    let v = ledger.value_at(&market, &day(2024, 1, 2));
    assert_eq!(v.total, (fp(650) + 2 * fp(110)) as u128);
    assert_eq!(v.missing, 1);
}

#[test]
fn holdings_summary_ordered_by_ticker() {
    let mut ledger = Ledger::from_cash(fp(10000));
    ledger.buy("MSFT", fp(1), fp(1)).unwrap();
    ledger.buy("AAPL", fp(2), fp(1)).unwrap();
    ledger.buy("GOOGL", fp(3), fp(1)).unwrap();
    ledger.buy("AAPL", fp(4), fp(1)).unwrap();
    let summary = ledger.holdings_summary();
    let tickers: Vec<&str> = summary.iter().map(|h| h.ticker.as_str()).collect();
    assert_eq!(tickers, vec!["AAPL", "GOOGL", "MSFT"]);
    assert_eq!(summary[0].total_shares, fp(6) as u128);
    assert_eq!(summary[0].lot_count, 2);
    assert_eq!(summary[1].lot_count, 1);
}

#[test]
fn fractional_shares_cost_rounds_down() {
    // 0.5 shares at 99.99 cost 49.995 exactly in fixed-point units.
    let mut ledger = Ledger::from_cash(fp(50));
    assert!(ledger.buy("AAPL", SCALE / 2, 999900).is_ok());
    assert_eq!(ledger.cash, fp(50) - 499950);
}
