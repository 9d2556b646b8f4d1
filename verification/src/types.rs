//! Core data model: currencies, calendar dates, transactions, budgets and
//! the ledger state that owns them.

use vstd::prelude::*;

verus! {

/// The closed set of supported currency codes.
#[derive(Clone, Copy, Debug, PartialEq, Eq, Structural, PartialOrd, Ord, Hash)]
pub enum Currency {
    USD,
    EUR,
    GBP,
    JPY,
    CHF,
}

impl Currency {
    /// The canonical 3-letter code of this currency.
    pub fn as_str(&self) -> (r: &'static str)
        ensures
            r@ == self.spec_code(),
    {
        proof {
            reveal_strlit("USD");
            reveal_strlit("EUR");
            reveal_strlit("GBP");
            reveal_strlit("JPY");
            reveal_strlit("CHF");
        }
        match self {
            Currency::USD => "USD",
            Currency::EUR => "EUR",
            Currency::GBP => "GBP",
            Currency::JPY => "JPY",
            Currency::CHF => "CHF",
        }
    }

    /// The code of a currency, as a sequence of characters.
    pub open spec fn spec_code(self) -> Seq<char> {
        match self {
            Currency::USD => seq!['U', 'S', 'D'],
            Currency::EUR => seq!['E', 'U', 'R'],
            Currency::GBP => seq!['G', 'B', 'P'],
            Currency::JPY => seq!['J', 'P', 'Y'],
            Currency::CHF => seq!['C', 'H', 'F'],
        }
    }

    /// Every supported currency, in its canonical order.
    pub fn all() -> (r: &'static [Currency])
        ensures
            r@ == seq![
                Currency::USD,
                Currency::EUR,
                Currency::GBP,
                Currency::JPY,
                Currency::CHF,
            ],
    {
        let s: &'static [Currency] = &[
            Currency::USD,
            Currency::EUR,
            Currency::GBP,
            Currency::JPY,
            Currency::CHF,
        ];
        proof {
            assert(s@ =~= seq![
                Currency::USD,
                Currency::EUR,
                Currency::GBP,
                Currency::JPY,
                Currency::CHF,
            ]);
        }
        s
    }
}

impl Default for Currency {
    /// The default currency is USD.
    fn default() -> (r: Currency)
        ensures
            r == Currency::USD,
    {
        Currency::USD
    }
}

impl core::str::FromStr for Currency {
    type Err = ();

    fn from_str(s: &str) -> Result<Currency, ()> {
        match Currency::from_code(s) {
            Some(c) => Ok(c),
            None => Err(()),
        }
    }
}

/// A calendar day, with no time component.
#[derive(Clone, Copy, Debug, PartialEq, Eq, Structural, Hash)]
pub struct Date {
    pub year: u32,
    pub month: u32,
    pub day: u32,
}

/// Whether a year is a leap year in the Gregorian calendar.
pub open spec fn spec_is_leap_year(year: int) -> bool {
    year % 4 == 0 && (year % 100 != 0 || year % 400 == 0)
}

/// The number of days of a month, counting leap years.
pub open spec fn spec_days_in_month(year: int, month: int) -> int {
    if month == 2 {
        if spec_is_leap_year(year) {
            29
        } else {
            28
        }
    } else if month == 4 || month == 6 || month == 9 || month == 11 {
        30
    } else {
        31
    }
}

impl Date {
    /// A well-formed calendar day: a four-digit year and a day that the
    /// month really has.
    pub open spec fn valid(self) -> bool {
        &&& 1 <= self.year <= 9999
        &&& 1 <= self.month <= 12
        &&& 1 <= self.day <= spec_days_in_month(self.year as int, self.month as int)
    }

    /// Builds a date if the fields form a well-formed calendar day.
    pub fn new(year: u32, month: u32, day: u32) -> (r: Option<Date>)
        ensures
            r matches Some(d) ==> d == (Date { year, month, day }) && d.valid(),
            r is None ==> !(Date { year, month, day }).valid(),
    {
        let d = Date { year, month, day };
        if 1 <= year && year <= 9999 && 1 <= month && month <= 12 && 1 <= day && day
            <= days_in_month(year, month) {
            Some(d)
        } else {
            None
        }
    }

    /// Whether this date is a well-formed calendar day.
    pub fn is_valid(&self) -> (r: bool)
        ensures
            r == self.valid(),
    {
        1 <= self.year && self.year <= 9999 && 1 <= self.month && self.month <= 12 && 1
            <= self.day && self.day <= days_in_month(self.year, self.month)
    }

    /// Whether two dates fall in the same calendar month of the same year.
    pub open spec fn spec_same_month(self, other: Date) -> bool {
        self.year == other.year && self.month == other.month
    }

    /// Whether this date falls in the same calendar month as `other`.
    pub fn same_month(&self, other: &Date) -> (r: bool)
        ensures
            r == self.spec_same_month(*other),
    {
        self.year == other.year && self.month == other.month
    }
}

/// The number of days of a month, counting leap years.
pub fn days_in_month(year: u32, month: u32) -> (r: u32)
    ensures
        r == spec_days_in_month(year as int, month as int),
{
    if month == 2 {
        if year % 4 == 0 && (year % 100 != 0 || year % 400 == 0) {
            29
        } else {
            28
        }
    } else if month == 4 || month == 6 || month == 9 || month == 11 {
        30
    } else {
        31
    }
}

/// One recorded movement of money: a dated, categorized amount in its own
/// currency. The amount is in hundredths of a currency unit.
#[derive(Debug, PartialEq)]
pub struct Transaction {
    pub date: Date,
    pub description: String,
    pub amount: i64,
    pub category: String,
    pub recurring: bool,
    pub currency: Currency,
}

/// The mathematical image of a transaction: text as character sequences,
/// the amount as an unbounded integer of hundredths.
#[verifier::ext_equal]
pub ghost struct TxView {
    pub date: Date,
    pub description: Seq<char>,
    pub amount: int,
    pub category: Seq<char>,
    pub recurring: bool,
    pub currency: Currency,
}

impl View for Transaction {
    type V = TxView;

    open spec fn view(&self) -> TxView {
        TxView {
            date: self.date,
            description: self.description@,
            amount: self.amount as int,
            category: self.category@,
            recurring: self.recurring,
            currency: self.currency,
        }
    }
}

impl DeepView for Transaction {
    type V = TxView;

    open spec fn deep_view(&self) -> TxView {
        self.view()
    }
}

impl Clone for Transaction {
    /// An equal transaction, field for field.
    fn clone(&self) -> (r: Self)
        ensures
            r == *self,
    {
        Transaction {
            date: self.date,
            description: self.description.clone(),
            amount: self.amount,
            category: self.category.clone(),
            recurring: self.recurring,
            currency: self.currency,
        }
    }
}

/// A monthly spending limit for one category, in its own currency; the
/// amount is in hundredths of a currency unit.
#[derive(Clone, Copy, Debug, PartialEq, Eq, Structural)]
pub struct CategoryBudget {
    pub amount: i64,
    pub currency: Currency,
}

/// Per-category monthly limits, keyed by the category name.
#[derive(Debug)]
pub struct Budget {
    pub monthly_limits: Vec<(String, CategoryBudget)>,
}

impl Budget {
    /// The entries with their keys taken as character sequences.
    pub open spec fn entries(self) -> Seq<(Seq<char>, CategoryBudget)> {
        self.monthly_limits@.map_values(|e: (String, CategoryBudget)| (e.0@, e.1))
    }

    /// The mapping from category name to its limit.
    pub open spec fn limits(self) -> Map<Seq<char>, CategoryBudget> {
        crate::assoc::map_of(self.entries())
    }

    /// Each category holds at most one entry.
    pub open spec fn wf(self) -> bool {
        crate::assoc::keys_distinct(self.entries())
    }
}

impl Default for Budget {
    /// A budget with no limits set.
    fn default() -> (r: Budget)
        ensures
            r.limits() == Map::<Seq<char>, CategoryBudget>::empty(),
            r.wf(),
            r.monthly_limits@.len() == 0,
    {
        let r = Budget { monthly_limits: Vec::new() };
        proof {
            assert(r.entries() =~= Seq::<(Seq<char>, CategoryBudget)>::empty());
        }
        r
    }
}

/// Everything one profile persists: the transactions in insertion order,
/// the budget, and the name of the profile last used, if any.
#[derive(Debug)]
pub struct BudgetAppData {
    pub transactions: Vec<Transaction>,
    pub budget: Budget,
    pub last_profile: Option<String>,
}

impl BudgetAppData {
    /// The transactions as a sequence of mathematical values.
    pub open spec fn txs(self) -> Seq<TxView> {
        self.transactions.deep_view()
    }

    /// An empty ledger: no transactions, no limits, no profile.
    pub open spec fn is_empty_ledger(self) -> bool {
        &&& self.txs() =~= Seq::<TxView>::empty()
        &&& self.budget.limits() =~= Map::<Seq<char>, CategoryBudget>::empty()
        &&& self.budget.wf()
        &&& self.last_profile is None
    }

    /// A well-formed ledger: distinct budget keys and valid dates.
    pub open spec fn wf(self) -> bool {
        &&& self.budget.wf()
        &&& forall|i: int| 0 <= i < self.txs().len() ==> (#[trigger] self.txs()[i]).date.valid()
    }

    /// Whether this ledger is well formed; a guard for data that was read
    /// from outside.
    pub fn well_formed(&self) -> (r: bool)
        ensures
            r == self.wf(),
    {
        if !self.budget.check_wf() {
            return false;
        }
        let n = self.transactions.len();
        let mut i: usize = 0;
        while i < n
            invariant
                n == self.txs().len(),
                n == self.transactions@.len(),
                i <= n,
                forall|j: int| 0 <= j < i ==> (#[trigger] self.txs()[j]).date.valid(),
            decreases n - i,
        {
            if !self.transactions[i].date.is_valid() {
                proof {
                    assert(self.txs()[i as int].date == self.transactions@[i as int].date);
                }
                return false;
            }
            i = i + 1;
        }
        true
    }
}

impl Default for BudgetAppData {
    /// The empty ledger.
    fn default() -> (r: BudgetAppData)
        ensures
            r.is_empty_ledger(),
    {
        let r = BudgetAppData {
            transactions: Vec::new(),
            budget: Budget::default(),
            last_profile: None,
        };
        proof {
            assert(r.txs() =~= Seq::<TxView>::empty());
        }
        r
    }
}

/// The two presentation themes the shell can ask for.
#[derive(Clone, Copy, Debug, PartialEq, Eq, Structural)]
pub enum Theme {
    Light,
    Dark,
}

/// The engine's state: the ledger, the search filter, the base currency
/// that aggregates are normalized into, the conversion table, and the
/// outcome of the last rate fetch. File paths and widget state belong to
/// the presentation shell.
#[derive(Debug)]
pub struct AppState {
    pub data: BudgetAppData,
    pub search_term: String,
    pub base_currency: Currency,
    pub exchange_rates: crate::data::ConversionTable,
    pub theme: Theme,
    pub rates_api_error: Option<String>,
}

impl AppState {
    /// A well-formed state: a well-formed ledger and conversion table.
    pub open spec fn wf(self) -> bool {
        &&& self.data.wf()
        &&& self.exchange_rates.wf()
    }

    /// The transactions as a sequence of mathematical values.
    pub open spec fn txs(self) -> Seq<TxView> {
        self.data.txs()
    }
}

} // verus!
