//! The portfolio ledger: a cash balance and purchase lots per instrument,
//! with cash-gated buying, unconditional deposits, seeded lots, and
//! mark-to-market valuation against a price store.
use crate::date::Date;
use crate::market::Market;
use crate::market::PriceEntry;
use crate::market::lookup;
use crate::money::cost;
use crate::money::cost_of;
use crate::money::lemma_cost_of_nonneg;
use crate::text::Rank;
use crate::text::lemma_str_lt_trans;
use crate::text::lemma_str_lt_trichotomy;
use crate::text::str_cmp;
use crate::text::str_lt;
use vstd::prelude::*;

verus! {

/// One purchase: a share count and the fixed-point price paid per share.
#[derive(Clone, Copy, PartialEq, Eq, Structural, Debug)]
pub struct Lot {
    pub shares: u64,
    pub cost_basis: u64,
}

/// All lots held in one instrument, in purchase order.
#[derive(Debug)]
pub struct Position {
    pub ticker: String,
    pub lots: Vec<Lot>,
}

/// The mathematical shape of a position: its ticker and its lots.
pub struct PosView {
    pub ticker: Seq<char>,
    pub lots: Seq<Lot>,
}

impl View for Position {
    type V = PosView;

    open spec fn view(&self) -> PosView {
        PosView { ticker: self.ticker@, lots: self.lots@ }
    }
}

pub open spec fn pviews(ps: Seq<Position>) -> Seq<PosView>
    decreases ps.len(),
{
    if ps.len() == 0 {
        Seq::empty()
    } else {
        pviews(ps.drop_last()).push(ps.last()@)
    }
}

/// A position holds at least one lot, every lot with a positive share count.
pub open spec fn posview_ok(p: PosView) -> bool {
    p.lots.len() > 0 && (forall|k: int| 0 <= k < p.lots.len() ==> (#[trigger] p.lots[k]).shares
        > 0)
}

/// Positions strictly ordered by ticker, each well-formed.
pub open spec fn posviews_wf(ps: Seq<PosView>) -> bool {
    &&& forall|i: int, j: int|
        0 <= i < j < ps.len() ==> str_lt((#[trigger] ps[i]).ticker, (#[trigger] ps[j]).ticker)
    &&& forall|i: int| 0 <= i < ps.len() ==> posview_ok(#[trigger] ps[i])
}

/// Appending a lot: onto the instrument's position if one exists, else as a
/// fresh position at its place in the ticker order.
pub open spec fn spec_add_lot(ps: Seq<PosView>, t: Seq<char>, lot: Lot) -> Seq<PosView>
    decreases ps.len(),
{
    if ps.len() == 0 {
        seq![PosView { ticker: t, lots: seq![lot] }]
    } else if str_lt(ps.last().ticker, t) {
        ps.push(PosView { ticker: t, lots: seq![lot] })
    } else if ps.last().ticker == t {
        ps.drop_last().push(PosView { ticker: t, lots: ps.last().lots.push(lot) })
    } else {
        spec_add_lot(ps.drop_last(), t, lot).push(ps.last())
    }
}

/// Appending a lot with a positive share count keeps the positions
/// well-formed, and adds nothing but that lot.
pub proof fn lemma_add_lot_wf(ps: Seq<PosView>, t: Seq<char>, lot: Lot)
    requires
        posviews_wf(ps),
        lot.shares > 0,
    ensures
        posviews_wf(spec_add_lot(ps, t, lot)),
        forall|i: int|
            0 <= i < spec_add_lot(ps, t, lot).len() ==> ((#[trigger] spec_add_lot(ps, t, lot)[i])
                .ticker == t || ps.contains(spec_add_lot(ps, t, lot)[i])),
    decreases ps.len(),
{
    let r = spec_add_lot(ps, t, lot);
    if ps.len() == 0 {
        assert(posview_ok(r[0]));
    } else if str_lt(ps.last().ticker, t) {
        assert forall|i: int, j: int| 0 <= i < j < r.len() implies str_lt(
            r[i].ticker,
            r[j].ticker,
        ) by {
            if j == r.len() - 1 && i < ps.len() - 1 {
                lemma_str_lt_trans(ps[i].ticker, ps.last().ticker, t);
            }
        }
        assert(posview_ok(r[r.len() - 1]));
    } else if ps.last().ticker == t {
        let np = PosView { ticker: t, lots: ps.last().lots.push(lot) };
        assert(posview_ok(np)) by {
            assert(forall|k: int|
                0 <= k < ps.last().lots.len() ==> #[trigger] np.lots[k] == ps.last().lots[k]);
            assert(np.lots[np.lots.len() - 1] == lot);
        }
        assert(forall|i: int|
            0 <= i < ps.len() - 1 ==> ps.contains(#[trigger] ps.drop_last()[i]));
    } else {
        assert(posviews_wf(ps.drop_last()));
        lemma_add_lot_wf(ps.drop_last(), t, lot);
        let r0 = spec_add_lot(ps.drop_last(), t, lot);
        lemma_str_lt_trichotomy(ps.last().ticker, t);
        assert(str_lt(t, ps.last().ticker));
        assert forall|i: int, j: int| 0 <= i < j < r.len() implies str_lt(
            r[i].ticker,
            r[j].ticker,
        ) by {
            if j == r.len() - 1 {
                if r0[i].ticker == t {
                } else {
                    let k = choose|k: int|
                        0 <= k < ps.drop_last().len() && ps.drop_last()[k] == r0[i];
                    assert(ps[k] == r0[i]);
                    assert(str_lt(ps[k].ticker, ps.last().ticker));
                }
            }
        }
        assert(forall|i: int|
            0 <= i < ps.len() - 1 ==> ps.contains(#[trigger] ps.drop_last()[i]));
        assert(ps.contains(ps.last()));
        assert forall|i: int| 0 <= i < r.len() implies (r[i].ticker == t || ps.contains(r[i])) by {
            if i < r0.len() {
                if r0[i].ticker != t {
                    let k = choose|k: int|
                        0 <= k < ps.drop_last().len() && ps.drop_last()[k] == r0[i];
                    assert(ps[k] == r0[i]);
                }
            }
        }
        assert forall|i: int| 0 <= i < r.len() implies posview_ok(r[i]) by {
            if i < r0.len() {
                assert(posview_ok(r0[i]));
            }
        }
    }
}

fn insert_lot(ps: &mut Vec<Position>, ticker: &str, lot: Lot)
    ensures
        pviews(final(ps)@) == spec_add_lot(pviews(old(ps)@), ticker@, lot),
    decreases old(ps)@.len(),
{
    let n = ps.len();
    if n == 0 {
        let mut lots: Vec<Lot> = Vec::new();
        lots.push(lot);
        let p = Position { ticker: String::from_str(ticker), lots };
        proof {
            assert(lots@ =~= seq![lot]);
        }
        ps.push(p);
        proof {
            assert(ps@.drop_last() =~= old(ps)@);
            assert(pviews(ps@) =~= seq![PosView { ticker: ticker@, lots: seq![lot] }]);
        }
        return ;
    }
    let o = str_cmp(ps[n - 1].ticker.as_str(), ticker);
    proof {
        assert(old(ps)@.last() == old(ps)@[n - 1]);
        assert(pviews(old(ps)@).last() == old(ps)@.last()@);
        assert(pviews(old(ps)@).drop_last() =~= pviews(old(ps)@.drop_last()));
    }
    match o {
        Rank::Less => {
            let mut lots: Vec<Lot> = Vec::new();
            lots.push(lot);
            proof {
                assert(lots@ =~= seq![lot]);
            }
            ps.push(Position { ticker: String::from_str(ticker), lots });
            proof {
                assert(ps@.drop_last() =~= old(ps)@);
                assert(pviews(ps@) == pviews(old(ps)@).push(
                    PosView { ticker: ticker@, lots: seq![lot] },
                ));
            }
        },
        Rank::Equal => {
            let mut p = ps.pop().unwrap();
            p.lots.push(lot);
            ps.push(p);
            proof {
                assert(ps@.drop_last() =~= old(ps)@.drop_last());
                assert(pviews(ps@) == pviews(old(ps)@.drop_last()).push(
                    PosView { ticker: ticker@, lots: old(ps)@.last()@.lots.push(lot) },
                ));
            }
        },
        Rank::Greater => {
            let last = ps.pop().unwrap();
            proof {
                assert(ps@ =~= old(ps)@.drop_last());
                lemma_str_lt_trichotomy(old(ps)@.last().ticker@, ticker@);
            }
            insert_lot(ps, ticker, lot);
            let ghost mid = ps@;
            ps.push(last);
            proof {
                assert(ps@.drop_last() =~= mid);
                assert(pviews(ps@) == pviews(mid).push(old(ps)@.last()@));
            }
        },
    }
}

/// Rejections of single ledger operations: each leaves the ledger unchanged.
#[derive(Clone, Copy, PartialEq, Eq, Structural, Debug)]
pub enum LedgerError {
    InvalidAmount,
    InsufficientCash,
}

/// A portfolio ledger: fixed-point cash and one position per held
/// instrument, ordered by ticker.
#[derive(Debug)]
pub struct Ledger {
    pub cash: u64,
    pub positions: Vec<Position>,
}

impl Ledger {
    pub open spec fn wf(&self) -> bool {
        posviews_wf(pviews(self.positions@))
    }

    /// An empty ledger holding `cash`.
    pub fn from_cash(cash: u64) -> (l: Ledger)
        ensures
            l.cash == cash,
            l.positions@.len() == 0,
            l.wf(),
    {
        let l = Ledger { cash, positions: Vec::new() };
        proof {
            assert(pviews(l.positions@) =~= Seq::<PosView>::empty());
        }
        l
    }

    /// Adds `amount` to cash; a zero amount is rejected and nothing changes.
    pub fn deposit(&mut self, amount: u64) -> (r: Result<(), LedgerError>)
        requires
            old(self).cash + amount <= u64::MAX,
        ensures
            (r is Ok) == (amount > 0),
            amount > 0 ==> final(self).cash == old(self).cash + amount && final(self).positions
                == old(self).positions,
            amount == 0 ==> *final(self) == *old(self) && r == Err::<(), LedgerError>(
                LedgerError::InvalidAmount,
            ),
    {
        if amount == 0 {
            return Err(LedgerError::InvalidAmount);
        }
        self.cash = self.cash + amount;
        Ok(())
    }

    /// Buys `shares` of `ticker` at `price`, both fixed-point: rejected
    /// outright when the cost exceeds cash, with no partial debit and no
    /// lot; otherwise debits exactly the cost and appends one lot carrying
    /// the purchase price as its basis.
    pub fn buy(&mut self, ticker: &str, shares: u64, price: u64) -> (r: Result<(), LedgerError>)
        ensures
            (r is Ok) == (shares > 0 && cost_of(shares, price) <= old(self).cash),
            final(self).cash as int == cash_after(
                old(self).cash as int,
                seq![BuyRequest { shares, price }],
            ),
            shares == 0 ==> *final(self) == *old(self) && r == Err::<(), LedgerError>(
                LedgerError::InvalidAmount,
            ),
            shares > 0 && cost_of(shares, price) > old(self).cash ==> *final(self) == *old(self)
                && r == Err::<(), LedgerError>(LedgerError::InsufficientCash),
            r is Ok ==> final(self).cash == old(self).cash - cost_of(shares, price) && pviews(
                final(self).positions@,
            ) == spec_add_lot(
                pviews(old(self).positions@),
                ticker@,
                Lot { shares, cost_basis: price },
            ),
            old(self).wf() ==> final(self).wf(),
    {
        proof {
            lemma_cash_after_one(old(self).cash as int, BuyRequest { shares, price });
        }
        if shares == 0 {
            return Err(LedgerError::InvalidAmount);
        }
        let c = cost(shares, price);
        if c > self.cash as u128 {
            return Err(LedgerError::InsufficientCash);
        }
        proof {
            lemma_cost_of_nonneg(shares, price);
            if old(self).wf() {
                lemma_add_lot_wf(
                    pviews(old(self).positions@),
                    ticker@,
                    Lot { shares, cost_basis: price },
                );
            }
        }
        self.cash = self.cash - (c as u64);
        insert_lot(&mut self.positions, ticker, Lot { shares, cost_basis: price });
        Ok(())
    }

    /// Seeds a lot without touching cash; only the share count is checked.
    pub fn add_lot(&mut self, ticker: &str, shares: u64, cost_basis: u64) -> (r: Result<
        (),
        LedgerError,
    >)
        ensures
            (r is Ok) == (shares > 0),
            shares == 0 ==> *final(self) == *old(self) && r == Err::<(), LedgerError>(
                LedgerError::InvalidAmount,
            ),
            r is Ok ==> final(self).cash == old(self).cash && pviews(final(self).positions@)
                == spec_add_lot(pviews(old(self).positions@), ticker@, Lot { shares, cost_basis }),
            old(self).wf() ==> final(self).wf(),
    {
        if shares == 0 {
            return Err(LedgerError::InvalidAmount);
        }
        proof {
            if old(self).wf() {
                lemma_add_lot_wf(pviews(old(self).positions@), ticker@, Lot { shares, cost_basis });
            }
        }
        insert_lot(&mut self.positions, ticker, Lot { shares, cost_basis });
        Ok(())
    }
}

/// The mark-to-market worth of the lots of one position at `price`.
pub open spec fn lots_value(ls: Seq<Lot>, price: u64) -> int
    decreases ls.len(),
{
    if ls.len() == 0 {
        0
    } else {
        lots_value(ls.drop_last(), price) + cost_of(ls.last().shares, price)
    }
}

/// The mark-to-market worth of all positions against the store `m` on `d`;
/// a position with no price on `d` contributes zero.
pub open spec fn positions_value(ps: Seq<PosView>, m: Seq<PriceEntry>, d: Date) -> int
    decreases ps.len(),
{
    if ps.len() == 0 {
        0
    } else {
        positions_value(ps.drop_last(), m, d) + match lookup(m, d, ps.last().ticker) {
            Some(p) => lots_value(ps.last().lots, p),
            None => 0,
        }
    }
}

/// How many held instruments have no price on `d`.
pub open spec fn missing_count(ps: Seq<PosView>, m: Seq<PriceEntry>, d: Date) -> int
    decreases ps.len(),
{
    if ps.len() == 0 {
        0
    } else {
        missing_count(ps.drop_last(), m, d) + if lookup(m, d, ps.last().ticker) is None {
            1int
        } else {
            0int
        }
    }
}

/// A ledger's total worth on `d`: cash plus the value of every lot.
pub open spec fn spec_value_at(cash: u64, ps: Seq<PosView>, m: Seq<PriceEntry>, d: Date) -> int {
    cash + positions_value(ps, m, d)
}

/// A sum too large for a `u128` is reported as `u128::MAX`.
pub open spec fn clamp_u128(x: int) -> int {
    if x <= u128::MAX {
        x
    } else {
        u128::MAX as int
    }
}

pub proof fn lemma_lots_value_nonneg(ls: Seq<Lot>, price: u64)
    ensures
        lots_value(ls, price) >= 0,
    decreases ls.len(),
{
    if ls.len() > 0 {
        lemma_lots_value_nonneg(ls.drop_last(), price);
        lemma_cost_of_nonneg(ls.last().shares, price);
    }
}

pub proof fn lemma_positions_value_nonneg(ps: Seq<PosView>, m: Seq<PriceEntry>, d: Date)
    ensures
        positions_value(ps, m, d) >= 0,
    decreases ps.len(),
{
    if ps.len() > 0 {
        lemma_positions_value_nonneg(ps.drop_last(), m, d);
        match lookup(m, d, ps.last().ticker) {
            Some(p) => lemma_lots_value_nonneg(ps.last().lots, p),
            None => (),
        }
    }
}

/// A valuation: the clamped total, and how many held instruments had no
/// price on the valuation date (their lots counted as worth zero).
#[derive(Clone, Copy, PartialEq, Eq, Structural, Debug)]
pub struct ValueReport {
    pub total: u128,
    pub missing: usize,
}

/// A summary line: one instrument, its summed shares and its lot count.
#[derive(Debug)]
pub struct HoldingSummary {
    pub ticker: String,
    pub total_shares: u128,
    pub lot_count: usize,
}

/// The summed share count of one position's lots.
pub open spec fn total_shares_of(ls: Seq<Lot>) -> int
    decreases ls.len(),
{
    if ls.len() == 0 {
        0
    } else {
        total_shares_of(ls.drop_last()) + ls.last().shares
    }
}

impl Ledger {
    /// Values the ledger against `market` on `date`: cash plus, for every
    /// lot, its share count at that day's price; a held instrument without
    /// a price contributes zero and is counted in `missing`. Always returns
    /// a number; a total beyond `u128::MAX` is reported as `u128::MAX`.
    pub fn value_at(&self, market: &Market, date: &Date) -> (r: ValueReport)
        ensures
            r.total as int == clamp_u128(
                spec_value_at(self.cash, pviews(self.positions@), market.entries@, *date),
            ),
            r.missing as int == missing_count(pviews(self.positions@), market.entries@, *date),
    {
        let ghost ps = pviews(self.positions@);
        let mut total: u128 = self.cash as u128;
        let mut missing: usize = 0;
        let n = self.positions.len();
        let mut i: usize = 0;
        proof {
            assert(pviews(self.positions@.subrange(0, 0)) =~= Seq::<PosView>::empty());
        }
        while i < n
            invariant
                i <= n == self.positions@.len(),
                total as int == clamp_u128(
                    spec_value_at(
                        self.cash,
                        pviews(self.positions@.subrange(0, i as int)),
                        market.entries@,
                        *date,
                    ),
                ),
                missing as int == missing_count(
                    pviews(self.positions@.subrange(0, i as int)),
                    market.entries@,
                    *date,
                ),
                missing <= i,
            decreases n - i,
        {
            let ghost pre = pviews(self.positions@.subrange(0, i as int));
            let ghost post = pviews(self.positions@.subrange(0, i as int + 1));
            proof {
                assert(self.positions@.subrange(0, i as int + 1).drop_last() =~= self
                    .positions@.subrange(0, i as int));
                assert(self.positions@.subrange(0, i as int + 1).last() == self.positions@[
                    i as int]);
                assert(post == pre.push(self.positions@[i as int]@));
                assert(post.drop_last() =~= pre);
                assert(post.last() == self.positions@[i as int]@);
                lemma_positions_value_nonneg(pre, market.entries@, *date);
            }
            let pos = &self.positions[i];
            match market.price_on(date, pos.ticker.as_str()) {
                None => {
                    missing = missing + 1;
                },
                Some(p) => {
                    let m = pos.lots.len();
                    let mut k: usize = 0;
                    proof {
                        assert(pos.lots@.subrange(0, 0) =~= Seq::<Lot>::empty());
                    }
                    while k < m
                        invariant
                            k <= m == pos.lots@.len(),
                            pos == &self.positions[i as int],
                            i < self.positions@.len(),
                            lookup(market.entries@, *date, pos.ticker@) == Some(p),
                            total as int == clamp_u128(
                                spec_value_at(
                                    self.cash,
                                    pviews(self.positions@.subrange(0, i as int)),
                                    market.entries@,
                                    *date,
                                ) + lots_value(pos.lots@.subrange(0, k as int), p),
                            ),
                        decreases m - k,
                    {
                        proof {
                            assert(pos.lots@.subrange(0, k as int + 1).drop_last() =~= pos
                                .lots@.subrange(0, k as int));
                            assert(pos.lots@.subrange(0, k as int + 1).last() == pos.lots@[
                                k as int]);
                            lemma_cost_of_nonneg(pos.lots@[k as int].shares, p);
                            lemma_lots_value_nonneg(pos.lots@.subrange(0, k as int), p);
                            lemma_positions_value_nonneg(
                                pviews(self.positions@.subrange(0, i as int)),
                                market.entries@,
                                *date,
                            );
                        }
                        let c = cost(pos.lots[k].shares, p);
                        total = total.saturating_add(c);
                        k += 1;
                    }
                    proof {
                        assert(pos.lots@.subrange(0, m as int) =~= pos.lots@);
                    }
                },
            }
            proof {
                assert(positions_value(post, market.entries@, *date) == positions_value(
                    pre,
                    market.entries@,
                    *date,
                ) + match lookup(market.entries@, *date, self.positions@[i as int].ticker@) {
                    Some(p) => lots_value(self.positions@[i as int].lots@, p),
                    None => 0int,
                });
            }
            i += 1;
        }
        proof {
            assert(self.positions@.subrange(0, n as int) =~= self.positions@);
        }
        ValueReport { total, missing }
    }

    /// One line per held instrument, in ascending ticker order: the summed
    /// shares over its lots, and how many lots it holds.
    pub fn holdings_summary(&self) -> (r: Vec<HoldingSummary>)
        requires
            self.wf(),
        ensures
            r@.len() == self.positions@.len(),
            forall|i: int|
                0 <= i < r@.len() ==> (#[trigger] r@[i]).ticker@ == self.positions@[i].ticker@
                    && r@[i].total_shares as int == total_shares_of(self.positions@[i].lots@)
                    && r@[i].lot_count == self.positions@[i].lots@.len(),
            forall|i: int, j: int|
                0 <= i < j < r@.len() ==> str_lt((#[trigger] r@[i]).ticker@, (
                #[trigger] r@[j]).ticker@),
    {
        let mut out: Vec<HoldingSummary> = Vec::new();
        let n = self.positions.len();
        let mut i: usize = 0;
        proof {
            assert(forall|k: int|
                0 <= k < self.positions@.len() ==> pviews(self.positions@)[k] == (
                #[trigger] self.positions@[k])@) by {
                lemma_pviews_index(self.positions@);
            }
        }
        while i < n
            invariant
                i <= n == self.positions@.len(),
                self.wf(),
                out@.len() == i,
                forall|k: int|
                    0 <= k < self.positions@.len() ==> pviews(self.positions@)[k] == (
                    #[trigger] self.positions@[k])@,
                forall|k: int|
                    0 <= k < i as int ==> (#[trigger] out@[k]).ticker@ == self.positions@[k]
                        .ticker@ && out@[k].total_shares as int == total_shares_of(
                        self.positions@[k].lots@,
                    ) && out@[k].lot_count == self.positions@[k].lots@.len(),
            decreases n - i,
        {
            let pos = &self.positions[i];
            let m = pos.lots.len();
            let mut acc: u128 = 0;
            let mut k: usize = 0;
            proof {
                assert(pos.lots@.subrange(0, 0) =~= Seq::<Lot>::empty());
            }
            while k < m
                invariant
                    k <= m == pos.lots@.len(),
                    pos == &self.positions[i as int],
                    i < self.positions@.len(),
                    acc as int == total_shares_of(pos.lots@.subrange(0, k as int)),
                    acc as int <= k as int * (u64::MAX as int),
                decreases m - k,
            {
                proof {
                    assert(pos.lots@.subrange(0, k as int + 1).drop_last() =~= pos.lots@.subrange(
                        0,
                        k as int,
                    ));
                    assert(pos.lots@.subrange(0, k as int + 1).last() == pos.lots@[k as int]);
                    assert((k as int + 1) * (u64::MAX as int) == k as int * (u64::MAX as int) + (
                    u64::MAX as int));
                    assert(m as int * (u64::MAX as int) <= (usize::MAX as int) * (
                    u64::MAX as int)) by (nonlinear_arith)
                        requires
                            m as int <= usize::MAX as int,
                    ;
                }
                acc = acc + (pos.lots[k].shares as u128);
                k += 1;
            }
            proof {
                assert(pos.lots@.subrange(0, m as int) =~= pos.lots@);
            }
            out.push(
                HoldingSummary {
                    ticker: pos.ticker.clone(),
                    total_shares: acc,
                    lot_count: m,
                },
            );
            i += 1;
        }
        proof {
            assert forall|i: int, j: int| 0 <= i < j < out@.len() implies str_lt(
                (#[trigger] out@[i]).ticker@,
                (#[trigger] out@[j]).ticker@,
            ) by {
                lemma_pviews_index(self.positions@);
                assert(pviews(self.positions@)[i].ticker == self.positions@[i].ticker@);
                assert(pviews(self.positions@)[j].ticker == self.positions@[j].ticker@);
                assert(str_lt(
                    pviews(self.positions@)[i].ticker,
                    pviews(self.positions@)[j].ticker,
                ));
            }
        }
        out
    }
}

/// `pviews` is the pointwise view of the positions.
pub proof fn lemma_pviews_index(ps: Seq<Position>)
    ensures
        pviews(ps).len() == ps.len(),
        forall|k: int| 0 <= k < ps.len() ==> pviews(ps)[k] == (#[trigger] ps[k])@,
    decreases ps.len(),
{
    if ps.len() > 0 {
        lemma_pviews_index(ps.drop_last());
        assert forall|k: int| 0 <= k < ps.len() implies pviews(ps)[k] == (#[trigger] ps[k])@ by {
            if k < ps.len() - 1 {
                assert(ps.drop_last()[k] == ps[k]);
                assert(pviews(ps)[k] == pviews(ps.drop_last())[k]);
            } else {
                assert(pviews(ps)[k] == ps.last()@);
            }
        }
    }
}

/// One requested purchase, as the cash law speaks of it.
pub struct BuyRequest {
    pub shares: u64,
    pub price: u64,
}

/// Whether a purchase goes through against a given cash balance.
pub open spec fn buy_accepted(cash: int, q: BuyRequest) -> bool {
    q.shares > 0 && cost_of(q.shares, q.price) <= cash
}

/// The cash left after a sequence of purchase requests, each accepted
/// exactly when its cost fits the cash at its turn.
pub open spec fn cash_after(cash: int, reqs: Seq<BuyRequest>) -> int
    decreases reqs.len(),
{
    if reqs.len() == 0 {
        cash
    } else if buy_accepted(cash, reqs[0]) {
        cash_after(cash - cost_of(reqs[0].shares, reqs[0].price), reqs.drop_first())
    } else {
        cash_after(cash, reqs.drop_first())
    }
}

/// The summed cost of the accepted purchases of a request sequence.
pub open spec fn accepted_cost_sum(cash: int, reqs: Seq<BuyRequest>) -> int
    decreases reqs.len(),
{
    if reqs.len() == 0 {
        0
    } else if buy_accepted(cash, reqs[0]) {
        cost_of(reqs[0].shares, reqs[0].price) + accepted_cost_sum(
            cash - cost_of(reqs[0].shares, reqs[0].price),
            reqs.drop_first(),
        )
    } else {
        accepted_cost_sum(cash, reqs.drop_first())
    }
}

/// Law: over any sequence of purchases against a non-negative starting
/// balance, the cash left is the start minus the summed costs of exactly
/// the accepted purchases, and it never goes negative.
pub proof fn lemma_buy_sequence_cash(cash: int, reqs: Seq<BuyRequest>)
    requires
        cash >= 0,
    ensures
        cash_after(cash, reqs) == cash - accepted_cost_sum(cash, reqs),
        cash_after(cash, reqs) >= 0,
    decreases reqs.len(),
{
    if reqs.len() > 0 {
        lemma_cost_of_nonneg(reqs[0].shares, reqs[0].price);
        if buy_accepted(cash, reqs[0]) {
            lemma_buy_sequence_cash(
                cash - cost_of(reqs[0].shares, reqs[0].price),
                reqs.drop_first(),
            );
        } else {
            lemma_buy_sequence_cash(cash, reqs.drop_first());
        }
    }
}

/// A purchase against one request: the cash left unfolds to a single
/// accept-or-reject step.
pub proof fn lemma_cash_after_one(cash: int, q: BuyRequest)
    ensures
        cash_after(cash, seq![q]) == if buy_accepted(cash, q) {
            cash - cost_of(q.shares, q.price)
        } else {
            cash
        },
{
    let qs = seq![q];
    assert(qs.len() == 1 && qs[0] == q);
    assert(qs.drop_first() =~= Seq::<BuyRequest>::empty());
    if buy_accepted(cash, q) {
        assert(cash_after(cash - cost_of(q.shares, q.price), qs.drop_first()) == cash - cost_of(
            q.shares,
            q.price,
        ));
    } else {
        assert(cash_after(cash, qs.drop_first()) == cash);
    }
}

/// Law: a ledger holding no lots is worth exactly its cash, on any date
/// and against any store; the reported total is that cash, unclamped.
pub proof fn lemma_value_at_no_lots(cash: u64, m: Seq<PriceEntry>, d: Date)
    ensures
        spec_value_at(cash, Seq::<PosView>::empty(), m, d) == cash,
        clamp_u128(spec_value_at(cash, Seq::<PosView>::empty(), m, d)) == cash,
{
}

} // verus!
