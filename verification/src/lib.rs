//! A daily-resolution portfolio backtesting core: an ordered price store
//! with exact lookups and range scans, a cash-gated portfolio ledger of
//! purchase lots, and a day-by-day simulation driver.
pub mod date;
pub mod ledger;
pub mod market;
pub mod money;
pub mod sim;
pub mod text;
