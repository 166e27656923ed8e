//! The price store: one price per (date, ticker) key, held as a vector
//! ordered date-major, ticker-minor, with exact lookup, a trading-day
//! probe, ordered range scans, and bulk loading with last-write-wins.
use crate::date::Date;
use crate::date::format_date;
use crate::date::parse_date;
use crate::date::spec_format_date;
use crate::date::spec_parse_date;
use crate::money::parse_price;
use crate::money::spec_parse_price;
use crate::text::Rank;
use crate::text::lemma_str_lt_trichotomy;
use crate::text::lemma_str_lt_trans;
use crate::text::str_cmp;
use crate::text::str_lt;
use vstd::prelude::*;

verus! {

/// One stored price record: `price` is fixed-point (see `crate::money`).
#[derive(Debug)]
pub struct PriceEntry {
    pub date: Date,
    pub ticker: String,
    pub price: u64,
}

/// One unparsed input row, as the data source hands it over.
#[derive(Debug)]
pub struct RawRow {
    pub date: String,
    pub ticker: String,
    pub price: String,
}

/// Loading rejects a batch holding any row it cannot parse.
#[derive(Clone, Copy, PartialEq, Eq, Structural, Debug)]
pub enum LoadError {
    MalformedInput,
}

/// Strict order on composite keys: date-major, ticker-minor.
pub open spec fn key_lt(d1: Date, t1: Seq<char>, d2: Date, t2: Seq<char>) -> bool {
    d1.spec_lt(d2) || (d1 == d2 && str_lt(t1, t2))
}

pub open spec fn entry_lt(a: PriceEntry, b: PriceEntry) -> bool {
    key_lt(a.date, a.ticker@, b.date, b.ticker@)
}

/// Entries strictly ordered by key: date-major, ticker-minor, no duplicates.
pub open spec fn entries_sorted(s: Seq<PriceEntry>) -> bool {
    forall|i: int, j: int| 0 <= i < j < s.len() ==> entry_lt(#[trigger] s[i], #[trigger] s[j])
}

pub open spec fn wf_entries(s: Seq<PriceEntry>) -> bool {
    entries_sorted(s) && (forall|i: int| 0 <= i < s.len() ==> (#[trigger] s[i]).date.valid())
}

/// The price stored under `(d, t)`: the last entry with that key.
pub open spec fn lookup(s: Seq<PriceEntry>, d: Date, t: Seq<char>) -> Option<u64>
    decreases s.len(),
{
    if s.len() == 0 {
        None
    } else if s.last().date == d && s.last().ticker@ == t {
        Some(s.last().price)
    } else {
        lookup(s.drop_last(), d, t)
    }
}

/// Some entry carries `d`: `d` is a trading day of the store.
pub open spec fn spec_has_any(s: Seq<PriceEntry>, d: Date) -> bool {
    exists|i: int| 0 <= i < s.len() && (#[trigger] s[i]).date == d
}

/// Insertion into the ordered entry list; an entry under an equal key is
/// replaced.
pub open spec fn spec_insert(s: Seq<PriceEntry>, e: PriceEntry) -> Seq<PriceEntry>
    decreases s.len(),
{
    if s.len() == 0 {
        seq![e]
    } else if entry_lt(s.last(), e) {
        s.push(e)
    } else if s.last().date == e.date && s.last().ticker@ == e.ticker@ {
        s.drop_last().push(e)
    } else {
        spec_insert(s.drop_last(), e).push(s.last())
    }
}

/// Keys compare like a strict total order: the composite of the date order
/// and the lexicographic ticker order.
pub proof fn lemma_key_lt_trichotomy(d1: Date, t1: Seq<char>, d2: Date, t2: Seq<char>)
    ensures
        key_lt(d1, t1, d2, t2) || key_lt(d2, t2, d1, t1) || (d1 == d2 && t1 == t2),
        key_lt(d1, t1, d2, t2) ==> !key_lt(d2, t2, d1, t1) && !(d1 == d2 && t1 == t2),
{
    lemma_str_lt_trichotomy(t1, t2);
}

pub proof fn lemma_key_lt_trans(
    d1: Date,
    t1: Seq<char>,
    d2: Date,
    t2: Seq<char>,
    d3: Date,
    t3: Seq<char>,
)
    requires
        key_lt(d1, t1, d2, t2),
        key_lt(d2, t2, d3, t3),
    ensures
        key_lt(d1, t1, d3, t3),
{
    if d1 == d2 && d2 == d3 {
        lemma_str_lt_trans(t1, t2, t3);
    }
}

/// Inserting into a well-formed entry list keeps it well-formed, and the
/// result holds nothing but the old entries and the new one.
pub proof fn lemma_insert_wf(s: Seq<PriceEntry>, e: PriceEntry)
    requires
        wf_entries(s),
        e.date.valid(),
    ensures
        wf_entries(spec_insert(s, e)),
        forall|i: int|
            0 <= i < spec_insert(s, e).len() ==> (#[trigger] spec_insert(s, e)[i] == e
                || s.contains(spec_insert(s, e)[i])),
    decreases s.len(),
{
    let r = spec_insert(s, e);
    if s.len() == 0 {
    } else if entry_lt(s.last(), e) {
        assert forall|i: int, j: int| 0 <= i < j < r.len() implies entry_lt(r[i], r[j]) by {
            if j == r.len() - 1 && i < s.len() - 1 {
                lemma_key_lt_trans(
                    s[i].date,
                    s[i].ticker@,
                    s.last().date,
                    s.last().ticker@,
                    e.date,
                    e.ticker@,
                );
            }
        }
    } else if s.last().date == e.date && s.last().ticker@ == e.ticker@ {
        assert(forall|i: int| 0 <= i < s.len() - 1 ==> s.contains(#[trigger] s.drop_last()[i]));
    } else {
        assert(wf_entries(s.drop_last()));
        lemma_insert_wf(s.drop_last(), e);
        let r0 = spec_insert(s.drop_last(), e);
        lemma_key_lt_trichotomy(s.last().date, s.last().ticker@, e.date, e.ticker@);
        assert(key_lt(e.date, e.ticker@, s.last().date, s.last().ticker@));
        assert forall|i: int, j: int| 0 <= i < j < r.len() implies entry_lt(r[i], r[j]) by {
            if j == r.len() - 1 {
                if r0[i] == e {
                } else {
                    let k = choose|k: int| 0 <= k < s.drop_last().len() && s.drop_last()[k]
                        == r0[i];
                    assert(s[k] == r0[i]);
                    assert(entry_lt(s[k], s.last()));
                }
            }
        }
        assert(forall|i: int|
            0 <= i < s.len() - 1 ==> s.contains(#[trigger] s.drop_last()[i]));
        assert(s.contains(s.last()));
        assert forall|i: int| 0 <= i < r.len() implies (r[i] == e || s.contains(r[i])) by {
            if i < r0.len() {
                if r0[i] != e {
                    let k = choose|k: int| 0 <= k < s.drop_last().len() && s.drop_last()[k]
                        == r0[i];
                    assert(s[k] == r0[i]);
                }
            }
        }
    }
}

/// After an insertion, the key written maps to the new price and every
/// other key to what it mapped to before.
pub proof fn lemma_lookup_insert(s: Seq<PriceEntry>, e: PriceEntry, d: Date, t: Seq<char>)
    ensures
        lookup(spec_insert(s, e), d, t) == if d == e.date && t == e.ticker@ {
            Some(e.price)
        } else {
            lookup(s, d, t)
        },
    decreases s.len(),
{
    let r = spec_insert(s, e);
    if s.len() == 0 {
        assert(r.last() == e);
        assert(r.drop_last() =~= Seq::<PriceEntry>::empty());
        if d == e.date && t == e.ticker@ {
            assert(lookup(r, d, t) == Some(e.price));
        } else {
            assert(lookup(r, d, t) == lookup(r.drop_last(), d, t));
        }
    } else if entry_lt(s.last(), e) {
        assert(r.last() == e);
        assert(r.drop_last() =~= s);
        if d == e.date && t == e.ticker@ {
            assert(lookup(r, d, t) == Some(e.price));
        } else {
            assert(lookup(r, d, t) == lookup(r.drop_last(), d, t));
        }
    } else if s.last().date == e.date && s.last().ticker@ == e.ticker@ {
        assert(r.last() == e);
        assert(r.drop_last() =~= s.drop_last());
        if d == e.date && t == e.ticker@ {
            assert(lookup(r, d, t) == Some(e.price));
        } else {
            assert(lookup(r, d, t) == lookup(s.drop_last(), d, t));
            assert(lookup(s, d, t) == lookup(s.drop_last(), d, t));
        }
    } else {
        let r0 = spec_insert(s.drop_last(), e);
        assert(r.last() == s.last());
        assert(r.drop_last() =~= r0);
        lemma_lookup_insert(s.drop_last(), e, d, t);
        lemma_key_lt_trichotomy(s.last().date, s.last().ticker@, e.date, e.ticker@);
        if d == s.last().date && t == s.last().ticker@ {
            assert(lookup(r, d, t) == Some(s.last().price));
            assert(lookup(s, d, t) == Some(s.last().price));
        } else {
            assert(lookup(r, d, t) == lookup(r0, d, t));
            assert(lookup(s, d, t) == lookup(s.drop_last(), d, t));
        }
    }
}

/// A price store: an ordered collection of price entries, at most one per
/// (date, ticker) key.
#[derive(Debug)]
pub struct Market {
    pub entries: Vec<PriceEntry>,
}

/// What a raw row denotes, if its date and price both parse.
pub open spec fn spec_parse_row(r: RawRow) -> Option<PriceEntry> {
    match (spec_parse_date(r.date@), spec_parse_price(r.price@)) {
        (Some(d), Some(p)) => Some(PriceEntry { date: d, ticker: r.ticker, price: p }),
        _ => None,
    }
}

pub open spec fn rows_ok(rows: Seq<RawRow>) -> bool {
    forall|i: int| 0 <= i < rows.len() ==> spec_parse_row(#[trigger] rows[i]) is Some
}

/// The store a row batch denotes: rows inserted in order, so a later row
/// under an equal key wins.
pub open spec fn spec_load(rows: Seq<RawRow>) -> Seq<PriceEntry>
    decreases rows.len(),
{
    if rows.len() == 0 {
        Seq::empty()
    } else {
        spec_insert(spec_load(rows.drop_last()), spec_parse_row(rows.last())->0)
    }
}

/// A well-formed row batch loads to a well-formed store.
pub proof fn lemma_spec_load_wf(rows: Seq<RawRow>)
    requires
        rows_ok(rows),
    ensures
        wf_entries(spec_load(rows)),
    decreases rows.len(),
{
    if rows.len() > 0 {
        assert(rows_ok(rows.drop_last())) by {
            assert(forall|i: int|
                0 <= i < rows.len() - 1 ==> #[trigger] rows.drop_last()[i] == rows[i]);
        }
        lemma_spec_load_wf(rows.drop_last());
        let e = spec_parse_row(rows.last())->0;
        assert(e.date.valid());
        lemma_insert_wf(spec_load(rows.drop_last()), e);
    }
}

fn key_cmp(a: &PriceEntry, d: &Date, t: &str) -> (o: Rank)
    ensures
        (o is Less) == key_lt(a.date, a.ticker@, *d, t@),
        (o is Equal) == (a.date == *d && a.ticker@ == t@),
        (o is Greater) == key_lt(*d, t@, a.date, a.ticker@),
{
    proof {
        lemma_str_lt_trichotomy(a.ticker@, t@);
    }
    if a.date.lt(d) {
        Rank::Less
    } else if d.lt(&a.date) {
        Rank::Greater
    } else {
        str_cmp(a.ticker.as_str(), t)
    }
}

fn insert_entry(entries: &mut Vec<PriceEntry>, e: PriceEntry)
    ensures
        final(entries)@ == spec_insert(old(entries)@, e),
    decreases old(entries)@.len(),
{
    let n = entries.len();
    if n == 0 {
        entries.push(e);
        proof {
            assert(entries@ =~= seq![e]);
        }
        return ;
    }
    let o = key_cmp(&entries[n - 1], &e.date, e.ticker.as_str());
    proof {
        assert(old(entries)@.last() == old(entries)@[n - 1]);
    }
    match o {
        Rank::Less => {
            entries.push(e);
        },
        Rank::Equal => {
            let _ = entries.pop();
            entries.push(e);
            proof {
                assert(entries@ =~= old(entries)@.drop_last().push(e));
            }
        },
        Rank::Greater => {
            let last = entries.pop().unwrap();
            proof {
                assert(entries@ =~= old(entries)@.drop_last());
                lemma_key_lt_trichotomy(
                    old(entries)@.last().date,
                    old(entries)@.last().ticker@,
                    e.date,
                    e.ticker@,
                );
            }
            insert_entry(entries, e);
            entries.push(last);
        },
    }
}

impl Market {
    /// Every entry under a valid date, strictly ordered by (date, ticker).
    pub open spec fn wf(&self) -> bool {
        wf_entries(self.entries@)
    }

    /// An empty store.
    pub fn new() -> (m: Market)
        ensures
            m.entries@.len() == 0,
            m.wf(),
    {
        Market { entries: Vec::new() }
    }

    /// Replaces the store's contents with what `rows` denotes, parsing each
    /// row's date and price; a batch with any unparsable row is rejected
    /// whole and the store left unchanged.
    pub fn load(&mut self, rows: &Vec<RawRow>) -> (r: Result<(), LoadError>)
        ensures
            (r is Ok) == rows_ok(rows@),
            r is Ok ==> final(self).entries@ == spec_load(rows@) && final(self).wf(),
            r is Err ==> *final(self) == *old(self) && r == Err::<(), LoadError>(
                LoadError::MalformedInput,
            ),
    {
        let mut acc: Vec<PriceEntry> = Vec::new();
        let n = rows.len();
        let mut i: usize = 0;
        proof {
            assert(rows@.subrange(0, 0) =~= Seq::<RawRow>::empty());
        }
        while i < n
            invariant
                i <= n == rows@.len(),
                rows_ok(rows@.subrange(0, i as int)),
                acc@ == spec_load(rows@.subrange(0, i as int)),
                wf_entries(acc@),
            decreases n - i,
        {
            let row = &rows[i];
            let d = match parse_date(row.date.as_str()) {
                Some(d) => d,
                None => {
                    return Err(LoadError::MalformedInput);
                },
            };
            let p = match parse_price(row.price.as_str()) {
                Some(p) => p,
                None => {
                    return Err(LoadError::MalformedInput);
                },
            };
            let e = PriceEntry { date: d, ticker: row.ticker.clone(), price: p };
            proof {
                assert(spec_parse_row(rows@[i as int]) == Some(e));
                lemma_insert_wf(acc@, e);
            }
            insert_entry(&mut acc, e);
            proof {
                let pre = rows@.subrange(0, i as int);
                let post = rows@.subrange(0, i as int + 1);
                assert(post.drop_last() =~= pre);
                assert(post.last() == rows@[i as int]);
                assert(forall|k: int| 0 <= k < post.len() ==> post[k] == rows@[k]);
            }
            i += 1;
        }
        proof {
            assert(rows@.subrange(0, n as int) =~= rows@);
        }
        self.entries = acc;
        Ok(())
    }

    /// The price stored under `(date, ticker)`; `None` when no such
    /// record exists. No interpolation, no fill-in from neighbouring days.
    pub fn price_on(&self, date: &Date, ticker: &str) -> (r: Option<u64>)
        ensures
            r == lookup(self.entries@, *date, ticker@),
    {
        let d = *date;
        let mut i = self.entries.len();
        proof {
            assert(self.entries@.subrange(0, i as int) =~= self.entries@);
        }
        while i > 0
            invariant
                i <= self.entries@.len(),
                d == *date,
                lookup(self.entries@, d, ticker@) == lookup(
                    self.entries@.subrange(0, i as int),
                    d,
                    ticker@,
                ),
            decreases i,
        {
            let e = &self.entries[i - 1];
            let same_date = e.date == d;
            let o = str_cmp(e.ticker.as_str(), ticker);
            proof {
                let pre = self.entries@.subrange(0, i as int);
                assert(pre.last() == self.entries@[i as int - 1]);
                assert(pre.drop_last() =~= self.entries@.subrange(0, i as int - 1));
            }
            if same_date && matches!(o, Rank::Equal) {
                proof {
                    let pre = self.entries@.subrange(0, i as int);
                    assert(lookup(pre, d, ticker@) == Some(pre.last().price));
                }
                return Some(e.price);
            }
            i -= 1;
        }
        proof {
            assert(self.entries@.subrange(0, 0) =~= Seq::<PriceEntry>::empty());
        }
        None
    }

    /// The price stored under the given date and ticker strings; `None`
    /// when the date does not parse or no such record exists.
    pub fn get_price(&self, date: &str, ticker: &str) -> (r: Option<u64>)
        ensures
            r == match spec_parse_date(date@) {
                Some(d) => lookup(self.entries@, d, ticker@),
                None => None::<u64>,
            },
    {
        let parsed = parse_date(date);
        let d = match parsed {
            Some(d) => d,
            None => {
                return None;
            },
        };
        self.price_on(&d, ticker)
    }

    /// Whether any instrument has a record on `date`: the trading-day test.
    /// A binary probe into the ordered entries, not a scan of the store.
    pub fn has_any_price(&self, date: &Date) -> (r: bool)
        requires
            self.wf(),
        ensures
            r == spec_has_any(self.entries@, *date),
    {
        let ghost v = self.entries@;
        let mut lo: usize = 0;
        let mut hi: usize = self.entries.len();
        while lo < hi
            invariant
                lo <= hi <= v.len(),
                v == self.entries@,
                forall|i: int| 0 <= i < lo ==> (#[trigger] v[i]).date.spec_lt(*date),
                forall|i: int| hi <= i < v.len() ==> !(#[trigger] v[i]).date.spec_lt(*date),
                self.wf(),
            decreases hi - lo,
        {
            let mid = lo + (hi - lo) / 2;
            if self.entries[mid].date.lt(date) {
                proof {
                    assert(entries_sorted(v));
                    assert forall|i: int| 0 <= i < mid + 1 implies (#[trigger] v[i]).date.spec_lt(
                        *date,
                    ) by {
                        if i < mid {
                            assert(entry_lt(v[i], v[mid as int]));
                        }
                    }
                }
                lo = mid + 1;
            } else {
                proof {
                    assert(entries_sorted(v));
                    assert forall|i: int| mid <= i < v.len() implies !(
                    #[trigger] v[i]).date.spec_lt(*date) by {
                        if i > mid {
                            assert(entry_lt(v[mid as int], v[i]));
                        }
                    }
                }
                hi = mid;
            }
        }
        if lo < self.entries.len() && self.entries[lo].date == *date {
            true
        } else {
            proof {
                assert(entries_sorted(v));
                assert forall|i: int| 0 <= i < v.len() implies (#[trigger] v[i]).date != *date
                    by {
                    if i >= lo && lo < v.len() {
                        if i > lo {
                            assert(entry_lt(v[lo as int], v[i]));
                        }
                    }
                }
            }
            false
        }
    }

    /// All entries for `ticker` with a date in the closed interval
    /// `[start, end]`, in ascending date order; empty when nothing matches.
    pub fn range(&self, ticker: &str, start: &Date, end: &Date) -> (r: Vec<PriceEntry>)
        requires
            self.wf(),
        ensures
            r@ == range_filter(self.entries@, ticker@, *start, *end),
            forall|i: int, j: int|
                0 <= i < j < r@.len() ==> (#[trigger] r@[i]).date.spec_lt((#[trigger] r@[j]).date),
    {
        let ghost v = self.entries@;
        let mut out: Vec<PriceEntry> = Vec::new();
        let n = self.entries.len();
        let mut i: usize = 0;
        proof {
            assert(v.subrange(0, 0) =~= Seq::<PriceEntry>::empty());
            assert(range_filter(v.subrange(0, 0), ticker@, *start, *end) =~= Seq::<
                PriceEntry,
            >::empty());
        }
        while i < n
            invariant
                i <= n == v.len(),
                v == self.entries@,
                self.wf(),
                out@ == range_filter(v.subrange(0, i as int), ticker@, *start, *end),
                forall|k1: int, k2: int|
                    0 <= k1 < k2 < out@.len() ==> (#[trigger] out@[k1]).date.spec_lt(
                        (#[trigger] out@[k2]).date,
                    ),
                out@.len() > 0 ==> exists|k: int|
                    0 <= k < i && out@.last() == #[trigger] v[k] && in_range(
                        v[k],
                        ticker@,
                        *start,
                        *end,
                    ),
            decreases n - i,
        {
            let e = &self.entries[i];
            let same_ticker = matches!(str_cmp(e.ticker.as_str(), ticker), Rank::Equal);
            let in_window = start.le(&e.date) && e.date.le(end);
            let ghost pre = v.subrange(0, i as int);
            let ghost post = v.subrange(0, i as int + 1);
            proof {
                assert(post.drop_last() =~= pre);
                assert(post.last() == v[i as int]);
            }
            let ghost out0 = out@;
            if same_ticker && in_window {
                let c = PriceEntry { date: e.date, ticker: e.ticker.clone(), price: e.price };
                proof {
                    assert(c == v[i as int]);
                    assert(in_range(v[i as int], ticker@, *start, *end));
                    if out@.len() > 0 {
                        let k = choose|k: int|
                            0 <= k < i && out@.last() == v[k] && in_range(
                                v[k],
                                ticker@,
                                *start,
                                *end,
                            );
                        assert(entry_lt(v[k], v[i as int]));
                        lemma_str_lt_trichotomy(v[k].ticker@, v[i as int].ticker@);
                        assert(v[k].date.spec_lt(v[i as int].date));
                    }
                }
                out.push(c);
                proof {
                    assert(out@.drop_last() =~= out0);
                    assert(out@.last() == c);
                }
            } else {
                proof {
                    assert(!in_range(v[i as int], ticker@, *start, *end));
                }
            }
            proof {
                assert(out@ == range_filter(post, ticker@, *start, *end));
            }
            i += 1;
        }
        proof {
            assert(v.subrange(0, n as int) =~= v);
        }
        out
    }

    /// Every distinct date carrying at least one record, spelled
    /// `YYYY-MM-DD`, in ascending order.
    pub fn get_all_dates(&self) -> (r: Vec<String>)
        requires
            self.wf(),
        ensures
            views_of(r@) == formats_of(dates_of(self.entries@)),
            forall|i: int, j: int|
                0 <= i < j < dates_of(self.entries@).len() ==> (#[trigger] dates_of(
                    self.entries@,
                )[i]).spec_lt(#[trigger] dates_of(self.entries@)[j]),
    {
        proof {
            lemma_dates_of_sorted(self.entries@);
        }
        let ghost v = self.entries@;
        let mut dates: Vec<Date> = Vec::new();
        let n = self.entries.len();
        let mut i: usize = 0;
        proof {
            assert(v.subrange(0, 0) =~= Seq::<PriceEntry>::empty());
        }
        while i < n
            invariant
                i <= n == v.len(),
                v == self.entries@,
                self.wf(),
                dates@ == dates_of(v.subrange(0, i as int)),
                forall|k: int| 0 <= k < dates@.len() ==> (#[trigger] dates@[k]).valid(),
            decreases n - i,
        {
            let ghost pre = v.subrange(0, i as int);
            let ghost post = v.subrange(0, i as int + 1);
            proof {
                assert(post.drop_last() =~= pre);
                assert(post.last() == v[i as int]);
            }
            let d = self.entries[i].date;
            if dates.len() == 0 {
                dates.push(d);
            } else if dates[dates.len() - 1] != d {
                dates.push(d);
            }
            proof {
                assert(dates@ == dates_of(post));
            }
            i += 1;
        }
        proof {
            assert(v.subrange(0, n as int) =~= v);
        }
        let mut out: Vec<String> = Vec::new();
        let m = dates.len();
        let mut k: usize = 0;
        proof {
            assert(views_of(out@) =~= formats_of(dates@.subrange(0, 0)));
        }
        while k < m
            invariant
                k <= m == dates@.len(),
                forall|j: int| 0 <= j < dates@.len() ==> (#[trigger] dates@[j]).valid(),
                views_of(out@) == formats_of(dates@.subrange(0, k as int)),
            decreases m - k,
        {
            let ghost out0 = out@;
            let s = format_date(&dates[k]);
            out.push(s);
            proof {
                let post = dates@.subrange(0, k as int + 1);
                assert(post.drop_last() =~= dates@.subrange(0, k as int));
                assert(post.last() == dates@[k as int]);
                assert(out@.drop_last() =~= out0);
                assert(views_of(out@) == views_of(out0).push(s@));
                assert(views_of(out@) == formats_of(post));
            }
            k += 1;
        }
        proof {
            assert(dates@.subrange(0, m as int) =~= dates@);
        }
        out
    }

    /// The tickers quoted on `date`, in ascending lexicographic order;
    /// empty when the date does not parse or carries no records.
    pub fn get_tickers_for_date(&self, date: &str) -> (r: Vec<String>)
        requires
            self.wf(),
        ensures
            views_of(r@) == match spec_parse_date(date@) {
                Some(d) => tickers_on(self.entries@, d),
                None => Seq::<Seq<char>>::empty(),
            },
            forall|i: int, j: int|
                0 <= i < j < r@.len() ==> str_lt((#[trigger] r@[i])@, (#[trigger] r@[j])@),
    {
        let parsed = parse_date(date);
        let d = match parsed {
            Some(d) => d,
            None => {
                let out: Vec<String> = Vec::new();
                proof {
                    assert(views_of(out@) =~= Seq::<Seq<char>>::empty());
                }
                return out;
            },
        };
        let ghost v = self.entries@;
        let mut out: Vec<String> = Vec::new();
        let n = self.entries.len();
        let mut i: usize = 0;
        proof {
            assert(v.subrange(0, 0) =~= Seq::<PriceEntry>::empty());
            assert(views_of(out@) =~= tickers_on(v.subrange(0, 0), d));
        }
        while i < n
            invariant
                i <= n == v.len(),
                v == self.entries@,
                self.wf(),
                spec_parse_date(date@) == Some(d),
                views_of(out@) == tickers_on(v.subrange(0, i as int), d),
                forall|k1: int, k2: int|
                    0 <= k1 < k2 < out@.len() ==> str_lt(
                        (#[trigger] out@[k1])@,
                        (#[trigger] out@[k2])@,
                    ),
                out@.len() > 0 ==> exists|k: int|
                    0 <= k < i && out@.last()@ == (#[trigger] v[k]).ticker@ && v[k].date == d,
            decreases n - i,
        {
            let e = &self.entries[i];
            let ghost pre = v.subrange(0, i as int);
            let ghost post = v.subrange(0, i as int + 1);
            proof {
                assert(post.drop_last() =~= pre);
                assert(post.last() == v[i as int]);
            }
            let ghost out0 = out@;
            if e.date == d {
                let t = e.ticker.clone();
                proof {
                    if out@.len() > 0 {
                        let k = choose|k: int|
                            0 <= k < i && out@.last()@ == v[k].ticker@ && v[k].date == d;
                        assert(entry_lt(v[k], v[i as int]));
                        assert(str_lt(out@.last()@, t@));
                    }
                }
                out.push(t);
                proof {
                    assert(out@.drop_last() =~= out0);
                    assert(out@.last() == t);
                    assert(views_of(out@) == views_of(out0).push(t@));
                    assert forall|k1: int, k2: int| 0 <= k1 < k2 < out@.len() implies str_lt(
                        (#[trigger] out@[k1])@,
                        (#[trigger] out@[k2])@,
                    ) by {
                        if k2 == out@.len() - 1 && k1 < k2 - 1 {
                            crate::text::lemma_str_lt_trans(out@[k1]@, out0.last()@, t@);
                        }
                    }
                }
            }
            proof {
                assert(views_of(out@) == tickers_on(post, d));
            }
            i += 1;
        }
        proof {
            assert(v.subrange(0, n as int) =~= v);
        }
        out
    }
}

/// Whether an entry belongs to the range scan for ticker `t` over the
/// closed interval `[start, end]`.
pub open spec fn in_range(e: PriceEntry, t: Seq<char>, start: Date, end: Date) -> bool {
    e.ticker@ == t && start.spec_le(e.date) && e.date.spec_le(end)
}

/// The entries of `s` for ticker `t` dated within `[start, end]`, in the
/// order they stand in `s`.
pub open spec fn range_filter(s: Seq<PriceEntry>, t: Seq<char>, start: Date, end: Date) -> Seq<
    PriceEntry,
>
    decreases s.len(),
{
    if s.len() == 0 {
        Seq::empty()
    } else {
        let rest = range_filter(s.drop_last(), t, start, end);
        if in_range(s.last(), t, start, end) {
            rest.push(s.last())
        } else {
            rest
        }
    }
}

/// The distinct dates of an ordered entry list, in order of appearance.
pub open spec fn dates_of(s: Seq<PriceEntry>) -> Seq<Date>
    decreases s.len(),
{
    if s.len() == 0 {
        Seq::empty()
    } else {
        let rest = dates_of(s.drop_last());
        if rest.len() > 0 && rest.last() == s.last().date {
            rest
        } else {
            rest.push(s.last().date)
        }
    }
}

/// The distinct dates of a well-formed store ascend strictly, and the
/// last of them is its last entry's date.
pub proof fn lemma_dates_of_sorted(s: Seq<PriceEntry>)
    requires
        wf_entries(s),
    ensures
        forall|i: int, j: int|
            0 <= i < j < dates_of(s).len() ==> (#[trigger] dates_of(s)[i]).spec_lt(
                #[trigger] dates_of(s)[j],
            ),
        dates_of(s).len() > 0 ==> s.len() > 0 && dates_of(s).last() == s.last().date,
        forall|k: int| 0 <= k < dates_of(s).len() ==> (#[trigger] dates_of(s)[k]).valid(),
    decreases s.len(),
{
    if s.len() > 0 {
        assert(wf_entries(s.drop_last()));
        lemma_dates_of_sorted(s.drop_last());
        let rest = dates_of(s.drop_last());
        let d = dates_of(s);
        if rest.len() > 0 && rest.last() == s.last().date {
        } else {
            assert(d == rest.push(s.last().date));
            if rest.len() > 0 {
                assert(entry_lt(s[s.len() - 2], s[s.len() - 1]));
                assert(rest.last() == s.drop_last().last().date);
                assert(rest.last().spec_lt(s.last().date) || rest.last() == s.last().date);
                assert forall|i: int, j: int| 0 <= i < j < d.len() implies (
                #[trigger] d[i]).spec_lt(#[trigger] d[j]) by {
                    if j == d.len() - 1 && i < rest.len() - 1 {
                        assert(rest[i].spec_lt(rest.last()));
                    }
                }
            }
        }
    }
}

/// The tickers of the entries dated `d`, in order of appearance.
pub open spec fn tickers_on(s: Seq<PriceEntry>, d: Date) -> Seq<Seq<char>>
    decreases s.len(),
{
    if s.len() == 0 {
        Seq::empty()
    } else {
        let rest = tickers_on(s.drop_last(), d);
        if s.last().date == d {
            rest.push(s.last().ticker@)
        } else {
            rest
        }
    }
}

/// The views of a string list.
pub open spec fn views_of(s: Seq<String>) -> Seq<Seq<char>>
    decreases s.len(),
{
    if s.len() == 0 {
        Seq::empty()
    } else {
        views_of(s.drop_last()).push(s.last()@)
    }
}

/// The `YYYY-MM-DD` spellings of a date list.
pub open spec fn formats_of(s: Seq<Date>) -> Seq<Seq<char>>
    decreases s.len(),
{
    if s.len() == 0 {
        Seq::empty()
    } else {
        formats_of(s.drop_last()).push(spec_format_date(s.last()))
    }
}

/// How many cells of a record the header covers, the date cell included.
pub open spec fn rec_limit(header: Seq<String>, rec: Seq<String>) -> int {
    if header.len() <= rec.len() {
        header.len() as int
    } else {
        rec.len() as int
    }
}

/// The raw rows one wide-format record denotes, reading cells `1..upto`:
/// cell 0 is the date, cell `j` the price under the `j`-th header ticker,
/// and an empty cell is a missing data point, not a row.
pub open spec fn rec_rows(header: Seq<String>, rec: Seq<String>, upto: int) -> Seq<RawRow>
    decreases upto,
{
    if upto <= 1 {
        Seq::empty()
    } else {
        let rest = rec_rows(header, rec, upto - 1);
        if rec[upto - 1]@.len() == 0 {
            rest
        } else {
            rest.push(RawRow { date: rec[0], ticker: header[upto - 1], price: rec[upto - 1] })
        }
    }
}

pub open spec fn table_rows(header: Seq<String>, recs: Seq<Vec<String>>, upto: int) -> Seq<RawRow>
    decreases upto,
{
    if upto <= 0 {
        Seq::empty()
    } else {
        table_rows(header, recs, upto - 1) + rec_rows(
            header,
            recs[upto - 1]@,
            rec_limit(header, recs[upto - 1]@),
        )
    }
}

/// The raw rows a whole wide-format table denotes, record by record.
pub open spec fn spec_table_rows(header: Seq<String>, recs: Seq<Vec<String>>) -> Seq<RawRow> {
    table_rows(header, recs, recs.len() as int)
}

pub open spec fn has_empty_record(recs: Seq<Vec<String>>) -> bool {
    exists|i: int| 0 <= i < recs.len() && (#[trigger] recs[i])@.len() == 0
}

impl Market {
    /// Replaces the store's contents with what a wide-format table denotes:
    /// the header names one ticker per column, each record carries a date
    /// and one optional price cell per ticker. A record with no cells at
    /// all, an unparsable date on a record with prices, or a non-empty
    /// unparsable price cell rejects the whole table, leaving the store
    /// unchanged.
    pub fn load_table(&mut self, header: &Vec<String>, records: &Vec<Vec<String>>) -> (r: Result<
        (),
        LoadError,
    >)
        ensures
            (r is Ok) == (!has_empty_record(records@) && rows_ok(
                spec_table_rows(header@, records@),
            )),
            r is Ok ==> final(self).entries@ == spec_load(spec_table_rows(header@, records@))
                && final(self).wf(),
            r is Err ==> *final(self) == *old(self) && r == Err::<(), LoadError>(
                LoadError::MalformedInput,
            ),
    {
        let mut rows: Vec<RawRow> = Vec::new();
        let n = records.len();
        let mut i: usize = 0;
        proof {
            assert(rows@ =~= table_rows(header@, records@, 0));
        }
        while i < n
            invariant
                i <= n == records@.len(),
                rows@ == table_rows(header@, records@, i as int),
                forall|k: int| 0 <= k < i ==> (#[trigger] records@[k])@.len() > 0,
            decreases n - i,
        {
            let rec = &records[i];
            let rl = rec.len();
            if rl == 0 {
                return Err(LoadError::MalformedInput);
            }
            let hl = header.len();
            let limit = if hl <= rl {
                hl
            } else {
                rl
            };
            let mut j: usize = 1;
            proof {
                assert(rec_rows(header@, rec@, 1) =~= Seq::<RawRow>::empty());
                assert(rows@ =~= table_rows(header@, records@, i as int) + rec_rows(
                    header@,
                    rec@,
                    1,
                ));
            }
            while j < limit
                invariant
                    1 <= j,
                    j <= limit || j == 1,
                    limit == rec_limit(header@, rec@),
                    limit <= header@.len(),
                    limit <= rec@.len(),
                    rec@.len() > 0,
                    rec@ == records@[i as int]@,
                    i < records@.len(),
                    rows@ == table_rows(header@, records@, i as int) + rec_rows(
                        header@,
                        rec@,
                        j as int,
                    ),
                decreases limit - j,
            {
                let ghost rows0 = rows@;
                let cell = &rec[j];
                if !cell.as_str().is_empty() {
                    let row = RawRow {
                        date: rec[0].clone(),
                        ticker: header[j].clone(),
                        price: cell.clone(),
                    };
                    proof {
                        assert(row == RawRow {
                            date: rec@[0],
                            ticker: header@[j as int],
                            price: rec@[j as int],
                        });
                    }
                    rows.push(row);
                    proof {
                        assert(rows@ =~= rows0.push(row));
                        assert(rec_rows(header@, rec@, j as int + 1) == rec_rows(
                            header@,
                            rec@,
                            j as int,
                        ).push(row));
                        assert(rows@ =~= table_rows(header@, records@, i as int) + rec_rows(
                            header@,
                            rec@,
                            j as int + 1,
                        ));
                    }
                } else {
                    proof {
                        assert(rec_rows(header@, rec@, j as int + 1) == rec_rows(
                            header@,
                            rec@,
                            j as int,
                        ));
                    }
                }
                j += 1;
            }
            proof {
                if limit <= 1 {
                    assert(rec_rows(header@, rec@, limit as int) =~= rec_rows(header@, rec@, 1));
                }
                assert(rows@ == table_rows(header@, records@, i as int) + rec_rows(
                    header@,
                    rec@,
                    rec_limit(header@, rec@),
                ));
                assert(rows@ == table_rows(header@, records@, i as int + 1));
            }
            i += 1;
        }
        self.load(&rows)
    }
}

/// The last price a row batch writes under `(d, t)`, if any.
pub open spec fn last_price(rows: Seq<RawRow>, d: Date, t: Seq<char>) -> Option<u64>
    decreases rows.len(),
{
    if rows.len() == 0 {
        None
    } else {
        let e = spec_parse_row(rows.last())->0;
        if e.date == d && e.ticker@ == t {
            Some(e.price)
        } else {
            last_price(rows.drop_last(), d, t)
        }
    }
}

/// Law: after a load, every key holds exactly the last value the row batch
/// wrote for it.
pub proof fn lemma_load_last_write(rows: Seq<RawRow>, d: Date, t: Seq<char>)
    requires
        rows_ok(rows),
    ensures
        lookup(spec_load(rows), d, t) == last_price(rows, d, t),
    decreases rows.len(),
{
    if rows.len() > 0 {
        assert(rows_ok(rows.drop_last())) by {
            assert(forall|i: int|
                0 <= i < rows.len() - 1 ==> #[trigger] rows.drop_last()[i] == rows[i]);
        }
        lemma_load_last_write(rows.drop_last(), d, t);
        lemma_lookup_insert(spec_load(rows.drop_last()), spec_parse_row(rows.last())->0, d, t);
    }
}

/// Law: a date is a trading day exactly when some ticker's range scan over
/// that single-day window is non-empty.
pub proof fn lemma_has_any_iff_single_day_range(s: Seq<PriceEntry>, d: Date)
    ensures
        spec_has_any(s, d) <==> exists|t: Seq<char>| range_filter(s, t, d, d).len() > 0,
    decreases s.len(),
{
    if s.len() == 0 {
        assert(forall|t: Seq<char>| range_filter(s, t, d, d).len() == 0);
    } else {
        lemma_has_any_iff_single_day_range(s.drop_last(), d);
        if s.last().date == d {
            let t = s.last().ticker@;
            assert(in_range(s.last(), t, d, d));
            assert(range_filter(s, t, d, d).len() > 0);
            assert(spec_has_any(s, d)) by {
                assert(s[s.len() - 1].date == d);
            }
        } else {
            assert forall|t: Seq<char>| range_filter(s, t, d, d) == range_filter(
                s.drop_last(),
                t,
                d,
                d,
            ) by {
                assert(!in_range(s.last(), t, d, d));
            }
            if spec_has_any(s, d) {
                let i = choose|i: int| 0 <= i < s.len() && s[i].date == d;
                assert(s.drop_last()[i] == s[i]);
                assert(spec_has_any(s.drop_last(), d));
                let t = choose|t: Seq<char>| range_filter(s.drop_last(), t, d, d).len() > 0;
                assert(range_filter(s, t, d, d).len() > 0);
            }
            if exists|t: Seq<char>| range_filter(s, t, d, d).len() > 0 {
                let t = choose|t: Seq<char>| range_filter(s, t, d, d).len() > 0;
                assert(range_filter(s.drop_last(), t, d, d).len() > 0);
                assert(spec_has_any(s.drop_last(), d));
                let i = choose|i: int| 0 <= i < s.drop_last().len() && s.drop_last()[i].date == d;
                assert(s[i].date == d);
            }
        }
    }
}

/// Law: a load determines the store from the row batch alone, so loading
/// the same batch a second time leaves a store identical to the first load.
pub proof fn lemma_load_idempotent(rows: Seq<RawRow>, m1: Market, m2: Market)
    requires
        m1.entries@ == spec_load(rows),
        m2.entries@ == spec_load(rows),
    ensures
        m1.entries@ == m2.entries@,
        forall|d: Date, t: Seq<char>| lookup(m1.entries@, d, t) == lookup(m2.entries@, d, t),
{
}

} // verus!
