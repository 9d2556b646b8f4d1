//! The ledger store and the conversion table: loading with fallback,
//! direct mutation of the transaction list and the budget map, directed
//! exchange rates, and the application of a fetched rate feed.

use vstd::prelude::*;
use crate::assoc::{map_of, keys_distinct, lemma_map_of_entries, lemma_map_of_push,
    lemma_map_of_update};
use crate::text::str_eq;
use crate::types::{AppState, Budget, BudgetAppData, CategoryBudget, Currency, Theme,
    Transaction};

verus! {

/// The denominator of fixed-point rates: a rate of one is this many
/// micro-units.
pub const RATE_SCALE: u64 = 1_000_000;

/// The micro-units of the arithmetic inverse of a rate of `micros`
/// micro-units, rounded down.
pub open spec fn spec_inverse_rate(micros: int) -> int
    recommends
        micros > 0,
{
    (RATE_SCALE as int) * (RATE_SCALE as int) / micros
}

/// A signed amount scaled by a fixed-point rate, rounded towards zero.
pub open spec fn spec_scaled(amount: int, micros: int) -> int {
    if amount >= 0 {
        (amount * micros) / (RATE_SCALE as int)
    } else {
        -((-amount * micros) / (RATE_SCALE as int))
    }
}

/// What converting an amount between two currencies returns under a given
/// table of directed rates: the amount itself when the currencies are
/// equal or when no rate is stored, and the scaled amount otherwise.
pub open spec fn spec_convert(
    rates: Map<(Currency, Currency), u64>,
    amount: int,
    from: Currency,
    to: Currency,
) -> int {
    if from == to {
        amount
    } else if rates.contains_key((from, to)) {
        spec_scaled(amount, rates[(from, to)] as int)
    } else {
        amount
    }
}

/// A table of directed conversion rates: one positive fixed-point factor
/// for each stored ordered pair of distinct currencies.
#[derive(Debug)]
pub struct ConversionTable {
    pub entries: Vec<((Currency, Currency), u64)>,
}

impl View for ConversionTable {
    type V = Map<(Currency, Currency), u64>;

    /// The mapping from ordered currency pair to its rate in micro-units.
    open spec fn view(&self) -> Map<(Currency, Currency), u64> {
        map_of(self.entries@)
    }
}

impl ConversionTable {
    /// Each ordered pair is stored at most once, every stored rate is
    /// positive, and no pair relates a currency to itself.
    pub open spec fn wf(self) -> bool {
        &&& keys_distinct(self.entries@)
        &&& forall|i: int|
            0 <= i < self.entries@.len() ==> (#[trigger] self.entries@[i]).1 > 0
                && self.entries@[i].0.0 != self.entries@[i].0.1
    }

    /// A table with no rates stored.
    pub fn new() -> (r: ConversionTable)
        ensures
            r.wf(),
            r@ == Map::<(Currency, Currency), u64>::empty(),
    {
        let r = ConversionTable { entries: Vec::new() };
        proof {
            assert(r@ =~= Map::<(Currency, Currency), u64>::empty());
        }
        r
    }

    /// The stored rate for the ordered pair, if any.
    pub fn rate(&self, from: Currency, to: Currency) -> (r: Option<u64>)
        requires
            self.wf(),
        ensures
            r == if self@.contains_key((from, to)) {
                Some(self@[(from, to)])
            } else {
                None::<u64>
            },
    {
        proof {
            lemma_map_of_entries(self.entries@);
        }
        let n = self.entries.len();
        let mut i: usize = 0;
        while i < n
            invariant
                self.wf(),
                n == self.entries@.len(),
                i <= n,
                forall|j: int| 0 <= j < i ==> (#[trigger] self.entries@[j]).0 != (from, to),
                forall|k: (Currency, Currency)|
                    self@.contains_key(k) <==> exists|j: int|
                        0 <= j < n && (#[trigger] self.entries@[j]).0 == k,
                forall|j: int|
                    0 <= j < n ==> self@.contains_pair(
                        (#[trigger] self.entries@[j]).0,
                        self.entries@[j].1,
                    ),
            decreases n - i,
        {
            let e = &self.entries[i];
            if e.0.0 == from && e.0.1 == to {
                proof {
                    assert(self.entries@[i as int].0 == (from, to));
                }
                return Some(e.1);
            }
            i = i + 1;
        }
        proof {
            if self@.contains_key((from, to)) {
                let j = choose|j: int|
                    0 <= j < n && (#[trigger] self.entries@[j]).0 == (from, to);
                assert(false);
            }
        }
        None
    }

    /// Stores or overwrites the rate of one directed pair. A pair of a
    /// currency with itself is never stored: converting between equal
    /// currencies never consults the table.
    pub fn set_rate(&mut self, from: Currency, to: Currency, micros: u64)
        requires
            old(self).wf(),
            micros > 0,
        ensures
            final(self).wf(),
            from != to ==> final(self)@ == old(self)@.insert((from, to), micros),
            from == to ==> *final(self) == *old(self),
    {
        if from == to {
            return;
        }
        let ghost s0 = self.entries@;
        let n = self.entries.len();
        let mut i: usize = 0;
        while i < n
            invariant
                self.entries@ == s0,
                s0 == old(self).entries@,
                n == s0.len(),
                i <= n,
                keys_distinct(s0),
                forall|j: int|
                    0 <= j < n ==> (#[trigger] s0[j]).1 > 0 && s0[j].0.0 != s0[j].0.1,
                micros > 0,
                from != to,
                forall|j: int| 0 <= j < i ==> (#[trigger] s0[j]).0 != (from, to),
            decreases n - i,
        {
            let e = &self.entries[i];
            if e.0.0 == from && e.0.1 == to {
                proof {
                    assert(s0[i as int].0 == (from, to));
                }
                self.entries[i] = ((from, to), micros);
                proof {
                    assert(self.entries@ =~= s0.update(i as int, ((from, to), micros)));
                    lemma_map_of_update(s0, i as int, (from, to), micros);
                    assert forall|p: int, q: int|
                        0 <= p < q < self.entries@.len() implies self.entries@[p].0
                        != self.entries@[q].0 by {
                        assert(s0[p].0 == self.entries@[p].0 || p == i);
                        assert(s0[q].0 == self.entries@[q].0 || q == i);
                    };
                }
                return;
            }
            i = i + 1;
        }
        self.entries.push(((from, to), micros));
        proof {
            lemma_map_of_push(s0, (from, to), micros);
            assert forall|p: int, q: int|
                0 <= p < q < self.entries@.len() implies self.entries@[p].0
                != self.entries@[q].0 by {
                if q == self.entries@.len() - 1 {
                    assert(s0[p].0 != (from, to));
                }
            };
        }
    }

    /// Converts an amount between currencies: unchanged when the
    /// currencies are equal, scaled by the stored rate when one is
    /// stored, and unchanged as the deliberate fallback when none is.
    pub fn convert(&self, amount: i64, from: Currency, to: Currency) -> (r: i64)
        requires
            self.wf(),
            i64::MIN <= spec_convert(self@, amount as int, from, to) <= i64::MAX,
        ensures
            r as int == spec_convert(self@, amount as int, from, to),
            from == to ==> r == amount,
            from != to && !self@.contains_key((from, to)) ==> r == amount,
    {
        if from == to {
            return amount;
        }
        match self.rate(from, to) {
            None => amount,
            Some(micros) => {
                let mag: u128 = if amount >= 0 {
                    amount as u128
                } else {
                    (-(amount as i128)) as u128
                };
                proof {
                    assert(mag <= 1u128 << 63) by (bit_vector)
                        requires
                            mag <= 0x8000_0000_0000_0000u128,
                    ;
                    vstd::arithmetic::mul::lemma_mul_upper_bound(
                        mag as int,
                        0x8000_0000_0000_0000,
                        micros as int,
                        u64::MAX as int,
                    );
                }
                let prod: u128 = mag * (micros as u128);
                let q: u128 = prod / (RATE_SCALE as u128);
                if amount >= 0 {
                    assert(q == spec_convert(self@, amount as int, from, to));
                    q as i64
                } else {
                    assert(-(q as int) == spec_convert(self@, amount as int, from, to));
                    if q == 0x8000_0000_0000_0000u128 {
                        i64::MIN
                    } else {
                        -(q as i64)
                    }
                }
            },
        }
    }
}

/// The example rates a fresh state starts from, as micro-unit factors.
pub open spec fn default_rates_map() -> Map<(Currency, Currency), u64> {
    Map::<(Currency, Currency), u64>::empty()
        .insert((Currency::EUR, Currency::USD), 1_100_000)
        .insert((Currency::USD, Currency::EUR), 910_000)
        .insert((Currency::GBP, Currency::USD), 1_250_000)
        .insert((Currency::USD, Currency::GBP), 800_000)
        .insert((Currency::JPY, Currency::USD), 6_800)
        .insert((Currency::USD, Currency::JPY), 147_000_000)
        .insert((Currency::CHF, Currency::USD), 1_130_000)
        .insert((Currency::USD, Currency::CHF), 880_000)
}

impl ConversionTable {
    /// A table holding the example rates a fresh state starts from.
    pub fn with_default_rates() -> (r: ConversionTable)
        ensures
            r.wf(),
            r@ == default_rates_map(),
    {
        let mut r = ConversionTable::new();
        r.set_rate(Currency::EUR, Currency::USD, 1_100_000);
        r.set_rate(Currency::USD, Currency::EUR, 910_000);
        r.set_rate(Currency::GBP, Currency::USD, 1_250_000);
        r.set_rate(Currency::USD, Currency::GBP, 800_000);
        r.set_rate(Currency::JPY, Currency::USD, 6_800);
        r.set_rate(Currency::USD, Currency::JPY, 147_000_000);
        r.set_rate(Currency::CHF, Currency::USD, 1_130_000);
        r.set_rate(Currency::USD, Currency::CHF, 880_000);
        r
    }
}

/// The table that merging a fetched feed into `m` leaves behind: for each
/// listed currency other than the base with a positive rate, the direct
/// rate from the base and, where it is not rounded down to nothing, its
/// arithmetic inverse; later entries for the same currency override
/// earlier ones.
pub open spec fn apply_feed(
    m: Map<(Currency, Currency), u64>,
    base: Currency,
    pairs: Seq<(Currency, u64)>,
) -> Map<(Currency, Currency), u64>
    decreases pairs.len(),
{
    if pairs.len() == 0 {
        m
    } else {
        let prev = apply_feed(m, base, pairs.drop_last());
        let c = pairs.last().0;
        let r = pairs.last().1;
        if c != base && r > 0 {
            let with_direct = prev.insert((base, c), r);
            let inv = spec_inverse_rate(r as int);
            if inv > 0 {
                with_direct.insert((c, base), inv as u64)
            } else {
                with_direct
            }
        } else {
            prev
        }
    }
}

/// What reading and parsing a ledger file produced: the file could not be
/// read, it was read but did not parse, or it parsed to a ledger.
#[derive(Debug)]
pub enum LoadOutcome {
    NotRead,
    Invalid,
    Parsed(BudgetAppData),
}

impl AppState {
    /// A fresh state around the given ledger, or around an empty one
    /// where loading produced none: a missing, unreadable or malformed
    /// file degrades to the empty ledger, never to an error.
    pub fn load_or_default(parsed: Option<BudgetAppData>) -> (st: AppState)
        requires
            parsed matches Some(d) ==> d.wf(),
        ensures
            st.wf(),
            parsed matches Some(d) ==> st.data == d,
            parsed is None ==> st.data.is_empty_ledger(),
            st.search_term@ == Seq::<char>::empty(),
            st.base_currency == Currency::USD,
            st.exchange_rates@ == default_rates_map(),
            st.theme == Theme::Light,
            st.rates_api_error is None,
    {
        let data = match parsed {
            Some(d) => d,
            None => BudgetAppData::default(),
        };
        AppState {
            data,
            search_term: String::new(),
            base_currency: Currency::USD,
            exchange_rates: ConversionTable::with_default_rates(),
            theme: Theme::Light,
            rates_api_error: None,
        }
    }

    /// Replaces the ledger with what a load produced: an unreadable file
    /// leaves the ledger unchanged, a file that was read but did not
    /// parse resets it to the empty ledger, and a parsed file replaces
    /// it.
    pub fn load(&mut self, outcome: LoadOutcome)
        requires
            old(self).wf(),
            outcome matches LoadOutcome::Parsed(d) ==> d.wf(),
        ensures
            final(self).wf(),
            outcome is NotRead ==> final(self).data == old(self).data,
            outcome is Invalid ==> final(self).data.is_empty_ledger(),
            outcome matches LoadOutcome::Parsed(d) ==> final(self).data == d,
            final(self).search_term == old(self).search_term,
            final(self).base_currency == old(self).base_currency,
            final(self).exchange_rates == old(self).exchange_rates,
            final(self).theme == old(self).theme,
            final(self).rates_api_error == old(self).rates_api_error,
    {
        match outcome {
            LoadOutcome::NotRead => {},
            LoadOutcome::Invalid => {
                self.data = BudgetAppData::default();
            },
            LoadOutcome::Parsed(d) => {
                self.data = d;
            },
        }
    }

    /// Appends one transaction at the end of the ledger.
    pub fn add_transaction(&mut self, tx: Transaction)
        requires
            old(self).wf(),
            tx.date.valid(),
        ensures
            final(self).wf(),
            final(self).data.transactions@ == old(self).data.transactions@.push(tx),
            final(self).data.budget == old(self).data.budget,
            final(self).data.last_profile == old(self).data.last_profile,
            final(self).search_term == old(self).search_term,
            final(self).base_currency == old(self).base_currency,
            final(self).exchange_rates == old(self).exchange_rates,
            final(self).theme == old(self).theme,
            final(self).rates_api_error == old(self).rates_api_error,
    {
        self.data.transactions.push(tx);
        proof {
            assert(self.txs() =~= old(self).txs().push(tx@));
            assert forall|i: int|
                0 <= i < self.txs().len() implies (#[trigger] self.txs()[i]).date.valid() by {
                if i < self.txs().len() - 1 {
                    assert(self.txs()[i] == old(self).txs()[i]);
                }
            };
        }
    }

    /// Removes the transaction at the given position; the caller checks
    /// bounds.
    pub fn delete_transaction(&mut self, index: usize)
        requires
            old(self).wf(),
            index < old(self).data.transactions@.len(),
        ensures
            final(self).wf(),
            final(self).data.transactions@ == old(self).data.transactions@.remove(index as int),
            final(self).data.budget == old(self).data.budget,
            final(self).data.last_profile == old(self).data.last_profile,
            final(self).search_term == old(self).search_term,
            final(self).base_currency == old(self).base_currency,
            final(self).exchange_rates == old(self).exchange_rates,
            final(self).theme == old(self).theme,
            final(self).rates_api_error == old(self).rates_api_error,
    {
        self.data.transactions.remove(index);
        proof {
            assert forall|i: int|
                0 <= i < self.txs().len() implies (#[trigger] self.txs()[i]).date.valid() by {
                if i < index {
                    assert(self.txs()[i] == old(self).txs()[i]);
                } else {
                    assert(self.txs()[i] == old(self).txs()[i + 1]);
                }
            };
        }
    }

    /// Converts an amount into another currency with the stored rates;
    /// equal currencies and missing rates leave the amount unchanged.
    pub fn convert(&self, amount: i64, from: Currency, to: Currency) -> (r: i64)
        requires
            self.wf(),
            i64::MIN <= spec_convert(self.exchange_rates@, amount as int, from, to) <= i64::MAX,
        ensures
            r as int == spec_convert(self.exchange_rates@, amount as int, from, to),
            from == to ==> r == amount,
            from != to && !self.exchange_rates@.contains_key((from, to)) ==> r == amount,
    {
        self.exchange_rates.convert(amount, from, to)
    }

    /// Stores or overwrites the rate of one directed pair.
    pub fn set_rate(&mut self, from: Currency, to: Currency, micros: u64)
        requires
            old(self).wf(),
            micros > 0,
        ensures
            final(self).wf(),
            from != to ==> final(self).exchange_rates@ == old(self).exchange_rates@.insert(
                (from, to),
                micros,
            ),
            from == to ==> final(self).exchange_rates == old(self).exchange_rates,
            final(self).data == old(self).data,
            final(self).search_term == old(self).search_term,
            final(self).base_currency == old(self).base_currency,
            final(self).theme == old(self).theme,
            final(self).rates_api_error == old(self).rates_api_error,
    {
        self.exchange_rates.set_rate(from, to, micros);
    }

    /// Merges the outcome of a rate fetch: a fetched list updates the
    /// table pair by pair, with the direct rate from the base currency
    /// and its arithmetic inverse, and clears the error; a failure
    /// records the error text and leaves the table untouched. Rates for
    /// the base currency itself and rates of zero are never stored.
    pub fn fetch_exchange_rates(&mut self, fetched: Result<Vec<(Currency, u64)>, String>)
        requires
            old(self).wf(),
        ensures
            final(self).wf(),
            fetched matches Ok(pairs) ==> final(self).exchange_rates@ == apply_feed(
                old(self).exchange_rates@,
                old(self).base_currency,
                pairs@,
            ) && final(self).rates_api_error is None,
            fetched matches Err(e) ==> final(self).rates_api_error == Some(e)
                && final(self).exchange_rates == old(self).exchange_rates,
            final(self).data == old(self).data,
            final(self).search_term == old(self).search_term,
            final(self).base_currency == old(self).base_currency,
            final(self).theme == old(self).theme,
    {
        match fetched {
            Ok(pairs) => {
                let base = self.base_currency;
                let n = pairs.len();
                let mut i: usize = 0;
                while i < n
                    invariant
                        n == pairs@.len(),
                        i <= n,
                        base == old(self).base_currency,
                        self.exchange_rates.wf(),
                        self.exchange_rates@ == apply_feed(
                            old(self).exchange_rates@,
                            base,
                            pairs@.subrange(0, i as int),
                        ),
                        self.data == old(self).data,
                        self.search_term == old(self).search_term,
                        self.base_currency == old(self).base_currency,
                        self.theme == old(self).theme,
                        self.rates_api_error == old(self).rates_api_error,
                    decreases n - i,
                {
                    let c = pairs[i].0;
                    let r = pairs[i].1;
                    if c != base && r > 0 {
                        self.exchange_rates.set_rate(base, c, r);
                        let inv: u64 = (RATE_SCALE * RATE_SCALE) / r;
                        if inv > 0 {
                            self.exchange_rates.set_rate(c, base, inv);
                        }
                    }
                    proof {
                        assert(pairs@.subrange(0, i + 1).drop_last() =~= pairs@.subrange(
                            0,
                            i as int,
                        ));
                        assert(pairs@.subrange(0, i + 1).last() == pairs@[i as int]);
                    }
                    i = i + 1;
                }
                proof {
                    assert(pairs@.subrange(0, n as int) =~= pairs@);
                }
                self.rates_api_error = None;
            },
            Err(e) => {
                self.rates_api_error = Some(e);
            },
        }
    }
}

impl Budget {
    /// Whether each category holds at most one entry; a guard for data
    /// that was read from outside.
    pub fn check_wf(&self) -> (r: bool)
        ensures
            r == self.wf(),
    {
        let n = self.monthly_limits.len();
        let mut i: usize = 0;
        while i < n
            invariant
                n == self.monthly_limits@.len(),
                n == self.entries().len(),
                i <= n,
                forall|p: int, q: int|
                    0 <= p < q < i ==> (#[trigger] self.entries()[p]).0
                        != (#[trigger] self.entries()[q]).0,
            decreases n - i,
        {
            let mut j: usize = 0;
            while j < i
                invariant
                    n == self.monthly_limits@.len(),
                    n == self.entries().len(),
                    j <= i < n,
                    forall|q: int|
                        0 <= q < j ==> (#[trigger] self.entries()[q]).0
                            != self.entries()[i as int].0,
                decreases i - j,
            {
                if str_eq(self.monthly_limits[j].0.as_str(), self.monthly_limits[i].0.as_str()) {
                    proof {
                        assert(self.entries()[j as int].0 == self.monthly_limits@[j as int].0@);
                        assert(self.entries()[i as int].0 == self.monthly_limits@[i as int].0@);
                    }
                    return false;
                }
                j = j + 1;
            }
            i = i + 1;
        }
        true
    }

    /// Sets or overwrites the monthly limit of one category.
    pub fn set_limit(&mut self, category: String, limit: CategoryBudget)
        requires
            old(self).wf(),
        ensures
            final(self).wf(),
            final(self).limits() == old(self).limits().insert(category@, limit),
    {
        let ghost s0 = self.entries();
        let n = self.monthly_limits.len();
        let mut i: usize = 0;
        while i < n
            invariant
                self.entries() == s0,
                s0 == old(self).entries(),
                n == s0.len(),
                n == self.monthly_limits@.len(),
                i <= n,
                keys_distinct(s0),
                forall|j: int| 0 <= j < i ==> (#[trigger] s0[j]).0 != category@,
            decreases n - i,
        {
            if str_eq(self.monthly_limits[i].0.as_str(), category.as_str()) {
                proof {
                    assert(s0[i as int].0 == self.monthly_limits@[i as int].0@);
                    assert(s0[i as int].0 == category@);
                }
                self.monthly_limits[i] = (category, limit);
                proof {
                    assert(self.entries() =~= s0.update(i as int, (s0[i as int].0, limit)));
                    lemma_map_of_update(s0, i as int, s0[i as int].0, limit);
                    assert forall|p: int, q: int|
                        0 <= p < q < self.entries().len() implies self.entries()[p].0
                        != self.entries()[q].0 by {
                        assert(self.entries()[p].0 == s0[p].0);
                        assert(self.entries()[q].0 == s0[q].0);
                    };
                }
                return;
            }
            i = i + 1;
        }
        self.monthly_limits.push((category, limit));
        proof {
            assert(self.entries() =~= s0.push((self.monthly_limits@.last().0@, limit)));
            lemma_map_of_push(s0, self.monthly_limits@.last().0@, limit);
            assert forall|p: int, q: int|
                0 <= p < q < self.entries().len() implies self.entries()[p].0
                != self.entries()[q].0 by {
                if q == self.entries().len() - 1 {
                    assert(self.entries()[p].0 == s0[p].0);
                    assert(s0[p].0 != category@);
                } else {
                    assert(self.entries()[p].0 == s0[p].0);
                    assert(self.entries()[q].0 == s0[q].0);
                }
            };
        }
    }

    /// The monthly limit stored for a category, if any.
    pub fn limit_for(&self, category: &str) -> (r: Option<CategoryBudget>)
        requires
            self.wf(),
        ensures
            r == if self.limits().contains_key(category@) {
                Some(self.limits()[category@])
            } else {
                None::<CategoryBudget>
            },
    {
        proof {
            lemma_map_of_entries(self.entries());
        }
        let n = self.monthly_limits.len();
        let mut i: usize = 0;
        while i < n
            invariant
                self.wf(),
                n == self.monthly_limits@.len(),
                n == self.entries().len(),
                i <= n,
                forall|j: int| 0 <= j < i ==> (#[trigger] self.entries()[j]).0 != category@,
                forall|k: Seq<char>|
                    self.limits().contains_key(k) <==> exists|j: int|
                        0 <= j < n && (#[trigger] self.entries()[j]).0 == k,
                forall|j: int|
                    0 <= j < n ==> self.limits().contains_pair(
                        (#[trigger] self.entries()[j]).0,
                        self.entries()[j].1,
                    ),
            decreases n - i,
        {
            if str_eq(self.monthly_limits[i].0.as_str(), category) {
                proof {
                    assert(self.entries()[i as int].0 == category@);
                }
                return Some(self.monthly_limits[i].1);
            }
            i = i + 1;
        }
        proof {
            if self.limits().contains_key(category@) {
                let j = choose|j: int|
                    0 <= j < n && (#[trigger] self.entries()[j]).0 == category@;
                assert(false);
            }
        }
        None
    }

    /// A budget built from a list of entries; a later entry for the same
    /// category overrides an earlier one.
    pub fn from_entries(entries: &Vec<(String, CategoryBudget)>) -> (r: Budget)
        ensures
            r.wf(),
            r.limits() == map_of(
                entries@.map_values(|e: (String, CategoryBudget)| (e.0@, e.1)),
            ),
    {
        let ghost all = entries@.map_values(|e: (String, CategoryBudget)| (e.0@, e.1));
        let mut r = Budget::default();
        let n = entries.len();
        let mut i: usize = 0;
        while i < n
            invariant
                n == entries@.len(),
                n == all.len(),
                all == entries@.map_values(|e: (String, CategoryBudget)| (e.0@, e.1)),
                i <= n,
                r.wf(),
                r.limits() == map_of(all.subrange(0, i as int)),
            decreases n - i,
        {
            let e = &entries[i];
            r.set_limit(e.0.clone(), e.1);
            proof {
                assert(all.subrange(0, i + 1).drop_last() =~= all.subrange(0, i as int));
                assert(all.subrange(0, i + 1).last() == (entries@[i as int].0@, entries@[i as int].1));
            }
            i = i + 1;
        }
        proof {
            assert(all.subrange(0, n as int) =~= all);
        }
        r
    }
}

} // verus!
