use dumbfi::date::Date;
use dumbfi::ledger::Ledger;
use dumbfi::market::Market;
use dumbfi::market::RawRow;
use dumbfi::money::SCALE;
use dumbfi::sim::SimError;
use dumbfi::sim::SingleShareBuyer;
use dumbfi::sim::Strategy;
use dumbfi::sim::run_backtest;

fn row(date: &str, ticker: &str, price: &str) -> RawRow {
    RawRow { date: date.to_string(), ticker: ticker.to_string(), price: price.to_string() }
}

fn day(year: u32, month: u32, day: u32) -> Date {
    Date { year, month, day }
}

fn fp(units: u64) -> u64 {
    units * SCALE
}

/// Remembers every date it was invoked on; never trades.
struct Recorder {
    seen: Vec<Date>,
}

impl Strategy for Recorder {
    fn on_day(&mut self, date: &Date, _market: &Market, _ledger: &mut Ledger) -> Result<
        u64,
        String,
    > {
        self.seen.push(*date);
        Ok(0)
    }
}

/// Fails on its first invocation.
struct Grumpy {}

impl Strategy for Grumpy {
    fn on_day(&mut self, _date: &Date, _market: &Market, _ledger: &mut Ledger) -> Result<
        u64,
        String,
    > {
        Err("strategy gave up".to_string())
    }
}

#[test]
fn end_to_end_buy_one_share_each_day() {
    let mut market = Market::new();
    market
        .load(&vec![row("2024-01-01", "AAPL", "100.0"), row("2024-01-02", "AAPL", "110.0")])
        .unwrap();
    let mut ledger = Ledger::from_cash(fp(1000));
    let mut strategy = SingleShareBuyer { ticker: "AAPL".to_string() };
    let result =
        run_backtest(&market, &mut ledger, &day(2024, 1, 1), &day(2024, 1, 2), &mut strategy)
            .unwrap();
    // Day one buys at 100.0, day two at 110.0.
    assert_eq!(result.entries.len(), 2);
    assert_eq!(result.entries[0].date, day(2024, 1, 1));
    assert_eq!(result.entries[0].outcome, fp(100));
    assert_eq!(result.entries[1].date, day(2024, 1, 2));
    assert_eq!(result.entries[1].outcome, fp(110));
    assert_eq!(ledger.cash, fp(790));
    let summary = ledger.holdings_summary();
    assert_eq!(summary.len(), 1);
    assert_eq!(summary[0].total_shares, fp(2) as u128);
    assert_eq!(summary[0].lot_count, 2);
    // Final valuation at 2024-01-02: 790 + 2 * 110 = 1010.
    let v = ledger.value_at(&market, &day(2024, 1, 2));
    assert_eq!(v.total, fp(1010) as u128);
    assert_eq!(v.missing, 0);
}

#[test]
fn dates_without_prices_are_skipped_silently() {
    let mut market = Market::new();
    market
        .load(&vec![
            row("2024-01-01", "AAPL", "100.0"),
            row("2024-01-02", "AAPL", "110.0"),
            row("2024-01-04", "AAPL", "120.0"),
        ])
        .unwrap();
    let mut ledger = Ledger::from_cash(fp(1000));
    let mut strategy = Recorder { seen: Vec::new() };
    // 2024-01-03 lies inside the interval but holds no prices: the
    // strategy is never invoked on it and no entry records it.
    let result =
        run_backtest(&market, &mut ledger, &day(2024, 1, 1), &day(2024, 1, 5), &mut strategy)
            .unwrap();
    let recorded: Vec<Date> = result.entries.iter().map(|e| e.date).collect();
    assert_eq!(recorded, vec![day(2024, 1, 1), day(2024, 1, 2), day(2024, 1, 4)]);
    assert_eq!(strategy.seen, recorded);
    assert!(!strategy.seen.contains(&day(2024, 1, 3)));
    assert!(!strategy.seen.contains(&day(2024, 1, 5)));
}

#[test]
fn reversed_or_malformed_interval_fails_fast() {
    let market = Market::new();
    let mut ledger = Ledger::from_cash(fp(10));
    let mut strategy = Recorder { seen: Vec::new() };
    let r = run_backtest(&market, &mut ledger, &day(2024, 1, 5), &day(2024, 1, 1), &mut strategy);
    assert!(matches!(r, Err(SimError::InvalidDateRange)));
    let r2 = run_backtest(&market, &mut ledger, &day(2024, 2, 30), &day(2024, 3, 1), &mut strategy);
    assert!(matches!(r2, Err(SimError::InvalidDateRange)));
    assert!(strategy.seen.is_empty());
    assert_eq!(ledger.cash, fp(10));
}

#[test]
fn strategy_error_aborts_run_verbatim() {
    let mut market = Market::new();
    market.load(&vec![row("2024-01-02", "AAPL", "100.0")]).unwrap();
    let mut ledger = Ledger::from_cash(fp(10));
    let mut strategy = Grumpy {};
    let r = run_backtest(&market, &mut ledger, &day(2024, 1, 1), &day(2024, 1, 3), &mut strategy);
    match r {
        Err(SimError::StrategyFailed(msg)) => assert_eq!(msg, "strategy gave up"),
        _ => panic!("expected the strategy's error to surface"),
    }
}

#[test]
fn run_crosses_month_and_year_boundaries() {
    let mut market = Market::new();
    market
        .load(&vec![
            row("2023-12-31", "AAPL", "90.0"),
            row("2024-01-01", "AAPL", "91.0"),
            row("2024-02-29", "AAPL", "92.0"),
            row("2024-03-01", "AAPL", "93.0"),
        ])
        .unwrap();
    let mut ledger = Ledger::from_cash(0);
    let mut strategy = Recorder { seen: Vec::new() };
    let result =
        run_backtest(&market, &mut ledger, &day(2023, 12, 30), &day(2024, 3, 1), &mut strategy)
            .unwrap();
    let recorded: Vec<Date> = result.entries.iter().map(|e| e.date).collect();
    assert_eq!(
        recorded,
        vec![day(2023, 12, 31), day(2024, 1, 1), day(2024, 2, 29), day(2024, 3, 1)]
    );
}

#[test]
fn buyer_holds_back_when_cash_short() {
    let mut market = Market::new();
    market
        .load(&vec![row("2024-01-01", "AAPL", "100.0"), row("2024-01-02", "AAPL", "110.0")])
        .unwrap();
    let mut ledger = Ledger::from_cash(fp(150));
    let mut strategy = SingleShareBuyer { ticker: "AAPL".to_string() };
    let result =
        run_backtest(&market, &mut ledger, &day(2024, 1, 1), &day(2024, 1, 2), &mut strategy)
            .unwrap();
    // Only the first day's purchase fits the cash.
    assert_eq!(result.entries[0].outcome, fp(100));
    assert_eq!(result.entries[1].outcome, 0);
    assert_eq!(ledger.cash, fp(50));
}
