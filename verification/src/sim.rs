//! The simulation driver: walks a closed date interval day by day, skips
//! dates the price store does not quote, and hands each trading day to a
//! caller-supplied strategy, recording one outcome per trading day.
use crate::date::Date;
use crate::ledger::BuyRequest;
use crate::ledger::Ledger;
use crate::ledger::Lot;
use crate::ledger::buy_accepted;
use crate::ledger::cash_after;
use crate::ledger::pviews;
use crate::ledger::spec_add_lot;
use crate::market::Market;
use crate::market::PriceEntry;
use crate::market::lookup;
use crate::market::spec_has_any;
use crate::money::SCALE;
use vstd::prelude::*;

verus! {

/// Why a run ends early: a bad interval, or the strategy's own error,
/// surfaced verbatim.
#[derive(Debug)]
pub enum SimError {
    InvalidDateRange,
    StrategyFailed(String),
}

/// One recorded trading day: the date and what the strategy returned.
#[derive(Clone, Copy, PartialEq, Eq, Structural, Debug)]
pub struct SimEntry {
    pub date: Date,
    pub outcome: u64,
}

/// The per-date outcomes of a run, one entry per trading day visited,
/// in visiting order.
#[derive(Debug)]
pub struct SimulationResult {
    pub entries: Vec<SimEntry>,
}

/// The decision function a run invokes once per trading day. It may
/// mutate the ledger through its operations and reports an outcome value
/// to record, or an error that aborts the run.
pub trait Strategy {
    fn on_day(&mut self, date: &Date, market: &Market, ledger: &mut Ledger) -> (r: Result<
        u64,
        String,
    >)
        requires
            old(ledger).wf(),
            market.wf(),
            date.valid(),
        ensures
            final(ledger).wf(),
    ;
}

/// The trading days of `[cur, end]`, in order: the valid dates the store
/// quotes at least one instrument on.
pub open spec fn trading_days(m: Seq<PriceEntry>, cur: Date, end: Date) -> Seq<Date>
    decreases 1 + end.year - cur.year, 12 - cur.month, 31 - cur.day,
{
    if !cur.valid() || !cur.spec_le(end) {
        Seq::empty()
    } else if spec_has_any(m, cur) {
        seq![cur] + trading_days(m, cur.spec_next_day(), end)
    } else {
        trading_days(m, cur.spec_next_day(), end)
    }
}

/// The dates of a result's entries, in order.
pub open spec fn entry_dates(s: Seq<SimEntry>) -> Seq<Date>
    decreases s.len(),
{
    if s.len() == 0 {
        Seq::empty()
    } else {
        entry_dates(s.drop_last()).push(s.last().date)
    }
}

/// Law: every listed trading day is valid, lies in the interval, and is
/// quoted in the store; the list is strictly ascending. So a date without
/// prices is never listed, and never recorded by a run.
pub proof fn lemma_trading_days_are_trading(m: Seq<PriceEntry>, cur: Date, end: Date)
    ensures
        forall|k: int|
            0 <= k < trading_days(m, cur, end).len() ==> {
                let d = #[trigger] trading_days(m, cur, end)[k];
                spec_has_any(m, d) && cur.spec_le(d) && d.spec_le(end) && d.valid()
            },
        forall|k1: int, k2: int|
            0 <= k1 < k2 < trading_days(m, cur, end).len() ==> (#[trigger] trading_days(
                m,
                cur,
                end,
            )[k1]).spec_lt(#[trigger] trading_days(m, cur, end)[k2]),
    decreases 1 + end.year - cur.year, 12 - cur.month, 31 - cur.day,
{
    let td = trading_days(m, cur, end);
    if !cur.valid() || !cur.spec_le(end) {
    } else {
        let next = cur.spec_next_day();
        lemma_trading_days_are_trading(m, next, end);
        let td0 = trading_days(m, next, end);
        assert(cur.spec_lt(next));
        if spec_has_any(m, cur) {
            assert(td == seq![cur] + td0);
            assert forall|k: int| 0 <= k < td.len() implies {
                let d = #[trigger] td[k];
                spec_has_any(m, d) && cur.spec_le(d) && d.spec_le(end) && d.valid()
            } by {
                if k > 0 {
                    assert(td[k] == td0[k - 1]);
                }
            }
            assert forall|k1: int, k2: int| 0 <= k1 < k2 < td.len() implies (
            #[trigger] td[k1]).spec_lt(#[trigger] td[k2]) by {
                if k1 > 0 {
                    assert(td[k1] == td0[k1 - 1]);
                    assert(td[k2] == td0[k2 - 1]);
                } else {
                    assert(td[k2] == td0[k2 - 1]);
                }
            }
        }
    }
}

/// Runs the simulation over the closed interval `[start, end]`: each date
/// the store quotes is handed to the strategy and recorded; every other
/// date is skipped with no strategy call and no entry. A malformed or
/// reversed interval is rejected before the loop; a strategy error aborts
/// the run at once and is surfaced verbatim.
pub fn run_backtest<S: Strategy>(
    market: &Market,
    ledger: &mut Ledger,
    start: &Date,
    end: &Date,
    strategy: &mut S,
) -> (r: Result<SimulationResult, SimError>)
    requires
        market.wf(),
        old(ledger).wf(),
    ensures
        final(ledger).wf(),
        (r matches Err(e) && e is InvalidDateRange) <==> (!start.valid() || !end.valid()
            || !start.spec_le(*end)),
        (!start.valid() || !end.valid() || !start.spec_le(*end)) ==> *final(ledger) == *old(
            ledger,
        ),
        r matches Ok(res) ==> entry_dates(res.entries@) == trading_days(
            market.entries@,
            *start,
            *end,
        ),
        (start.valid() && end.valid() && start.spec_le(*end) && trading_days(
            market.entries@,
            *start,
            *end,
        ).len() == 0) ==> (r matches Ok(res) && res.entries@.len() == 0 && *final(ledger) == *old(
            ledger,
        )),
        (r matches Err(e) && e is StrategyFailed) ==> trading_days(
            market.entries@,
            *start,
            *end,
        ).len() > 0,
{
    if !start.is_valid() || !end.is_valid() || !start.le(end) {
        return Err(SimError::InvalidDateRange);
    }
    let mut entries: Vec<SimEntry> = Vec::new();
    let mut cur: Date = *start;
    proof {
        assert(entry_dates(entries@) =~= Seq::<Date>::empty());
        assert(entry_dates(entries@) + trading_days(market.entries@, cur, *end) =~= trading_days(
            market.entries@,
            *start,
            *end,
        ));
    }
    while cur.le(end)
        invariant
            market.wf(),
            ledger.wf(),
            end.valid(),
            cur.valid() || !cur.spec_le(*end),
            entry_dates(entries@) + trading_days(market.entries@, cur, *end) == trading_days(
                market.entries@,
                *start,
                *end,
            ),
            trading_days(market.entries@, *start, *end).len() == 0 ==> (*ledger == *old(ledger)
                && entries@.len() == 0),
        decreases 1 + end.year - cur.year, 12 - cur.month, 31 - cur.day,
    {
        let ghost entries0 = entries@;
        let ghost cur0 = cur;
        if market.has_any_price(&cur) {
            let outcome = match strategy.on_day(&cur, market, ledger) {
                Ok(v) => v,
                Err(msg) => {
                    return Err(SimError::StrategyFailed(msg));
                },
            };
            entries.push(SimEntry { date: cur, outcome });
            proof {
                assert(entries@.drop_last() =~= entries0);
                assert(entry_dates(entries@) == entry_dates(entries0).push(cur0));
                assert(trading_days(market.entries@, cur0, *end) == seq![cur0] + trading_days(
                    market.entries@,
                    cur0.spec_next_day(),
                    *end,
                ));
                assert(entry_dates(entries@) + trading_days(
                    market.entries@,
                    cur0.spec_next_day(),
                    *end,
                ) =~= entry_dates(entries0) + trading_days(market.entries@, cur0, *end));
            }
        } else {
            proof {
                assert(trading_days(market.entries@, cur0, *end) == trading_days(
                    market.entries@,
                    cur0.spec_next_day(),
                    *end,
                ));
            }
        }
        cur = cur.next_day();
    }
    proof {
        assert(trading_days(market.entries@, cur, *end) =~= Seq::<Date>::empty());
        assert(entry_dates(entries@) + trading_days(market.entries@, cur, *end) =~= entry_dates(
            entries@,
        ));
    }
    Ok(SimulationResult { entries })
}

/// A strategy that buys one whole share of one instrument each trading
/// day the instrument is quoted and the cash covers the price; the
/// recorded outcome is the price paid, or zero when no purchase happened.
pub struct SingleShareBuyer {
    pub ticker: String,
}

/// The one purchase this strategy wants on a day: a single share at the
/// quoted price, or nothing when the instrument is not quoted.
pub open spec fn single_share_wants(p: Option<u64>) -> Seq<BuyRequest> {
    if p is Some {
        seq![BuyRequest { shares: SCALE, price: p->0 }]
    } else {
        Seq::empty()
    }
}

impl Strategy for SingleShareBuyer {
    /// Never errs; buys exactly when the instrument is quoted and the
    /// purchase is accepted against the cash at hand, leaving the cash and
    /// the positions exactly as one such purchase does, and reports the
    /// price paid, else zero.
    fn on_day(&mut self, date: &Date, market: &Market, ledger: &mut Ledger) -> (r: Result<
        u64,
        String,
    >)
        ensures
            r is Ok,
            *final(self) == *old(self),
            ({
                let p = lookup(market.entries@, *date, old(self).ticker@);
                let bought = p is Some && buy_accepted(
                    old(ledger).cash as int,
                    BuyRequest { shares: SCALE, price: p->0 },
                );
                &&& final(ledger).cash as int == cash_after(
                    old(ledger).cash as int,
                    single_share_wants(p),
                )
                &&& r->Ok_0 == if bought {
                    p->0
                } else {
                    0u64
                }
                &&& bought ==> pviews(final(ledger).positions@) == spec_add_lot(
                    pviews(old(ledger).positions@),
                    old(self).ticker@,
                    Lot { shares: SCALE, cost_basis: p->0 },
                )
                &&& !bought ==> final(ledger).positions == old(ledger).positions
            }),
    {
        match market.price_on(date, self.ticker.as_str()) {
            None => {
                proof {
                    assert(cash_after(old(ledger).cash as int, Seq::<BuyRequest>::empty())
                        == old(ledger).cash as int);
                }
                Ok(0)
            },
            Some(p) => {
                proof {
                    assert(crate::money::cost_of(SCALE, p) == p) by (nonlinear_arith)
                        requires
                            crate::money::cost_of(SCALE, p) == (SCALE * p) / (SCALE as int),
                            SCALE == 10000,
                    ;
                }
                match ledger.buy(self.ticker.as_str(), SCALE, p) {
                    Ok(()) => Ok(p),
                    Err(_) => Ok(0),
                }
            },
        }
    }
}

} // verus!
