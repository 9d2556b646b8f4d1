use budget_ledger::data::LoadOutcome;
use budget_ledger::types::{AppState, Budget, BudgetAppData, CategoryBudget, Currency, Date,
    Transaction};

fn tx(date: (u32, u32, u32), desc: &str, cents: i64, cat: &str, currency: Currency) -> Transaction {
    Transaction {
        date: Date { year: date.0, month: date.1, day: date.2 },
        description: String::from(desc),
        amount: cents,
        category: String::from(cat),
        recurring: false,
        currency,
    }
}

fn sample_state() -> AppState {
    let mut st = AppState::load_or_default(None);
    st.add_transaction(tx((2024, 5, 1), "Coffee", 350, "Food", Currency::USD));
    st.add_transaction(tx((2024, 5, 15), "Rent", 120000, "Housing", Currency::USD));
    st
}

#[test]
fn currency_codes_round_trip() {
    for c in Currency::all() {
        assert_eq!(Currency::from_code(c.as_str()), Some(*c));
    }
    assert_eq!(Currency::from_code("XXX"), None);
    assert_eq!(Currency::from_code("usd"), None);
    assert_eq!(Currency::default(), Currency::USD);
    assert_eq!(Currency::all().len(), 5);
}

#[test]
fn convert_same_currency_is_identity() {
    let st = AppState::load_or_default(None);
    for c in Currency::all() {
        assert_eq!(st.convert(12345, *c, *c), 12345);
        assert_eq!(st.convert(-7, *c, *c), -7);
        assert_eq!(st.convert(0, *c, *c), 0);
    }
}

#[test]
fn convert_missing_rate_returns_amount_unchanged() {
    let st = AppState::load_or_default(None);
    // the default table has no EUR -> GBP rate
    assert_eq!(st.exchange_rates.rate(Currency::EUR, Currency::GBP), None);
    assert_eq!(st.convert(999, Currency::EUR, Currency::GBP), 999);
    assert_eq!(st.convert(-999, Currency::GBP, Currency::CHF), -999);
}

#[test]
fn convert_applies_stored_rate() {
    let st = AppState::load_or_default(None);
    // default EUR -> USD rate is 1.1
    assert_eq!(st.convert(1000, Currency::EUR, Currency::USD), 1100);
    assert_eq!(st.convert(-1000, Currency::EUR, Currency::USD), -1100);
    // scaling rounds towards zero
    assert_eq!(st.convert(100, Currency::JPY, Currency::USD), 0);
}

#[test]
fn set_rate_overwrites_one_direction() {
    let mut st = AppState::load_or_default(None);
    st.set_rate(Currency::EUR, Currency::USD, 2_000_000);
    assert_eq!(st.convert(1000, Currency::EUR, Currency::USD), 2000);
    // the inverse pair is not touched
    assert_eq!(st.convert(1000, Currency::USD, Currency::EUR), 910);
}

#[test]
fn total_over_search_filter() {
    let mut st = sample_state();
    assert_eq!(st.total(), 120350);
    st.search_term = String::from("coffee");
    assert_eq!(st.total(), 350);
    st.search_term = String::from("zzz");
    assert_eq!(st.total(), 0);
}

#[test]
fn filtered_transactions_match_case_insensitively() {
    let mut st = sample_state();
    st.search_term = String::from("COFFEE");
    let hits = st.filtered_transactions();
    assert_eq!(hits.len(), 1);
    assert_eq!(hits[0].description, "Coffee");
    // the category is searched too
    st.search_term = String::from("hous");
    let hits = st.filtered_transactions();
    assert_eq!(hits.len(), 1);
    assert_eq!(hits[0].description, "Rent");
    st.search_term = String::new();
    assert_eq!(st.filtered_transactions().len(), 2);
}

#[test]
fn category_sums_restrict_to_reference_month() {
    let mut st = sample_state();
    st.add_transaction(tx((2024, 4, 30), "Groceries", 2000, "Food", Currency::USD));
    let sums = st.category_sums_this_month(Date { year: 2024, month: 5, day: 20 });
    assert_eq!(sums.len(), 2);
    assert_eq!(sums[0].0, "Food");
    assert_eq!(sums[0].1, 350);
    assert_eq!(sums[1].0, "Housing");
    assert_eq!(sums[1].1, 120000);
}

#[test]
fn category_sums_accumulate_per_category() {
    let mut st = sample_state();
    st.add_transaction(tx((2024, 5, 7), "Lunch", 1250, "Food", Currency::USD));
    let sums = st.category_sums_this_month(Date { year: 2024, month: 5, day: 1 });
    assert_eq!(sums.len(), 2);
    assert_eq!(sums[0].0, "Food");
    assert_eq!(sums[0].1, 1600);
}

#[test]
fn categories_sorted_and_deduplicated() {
    let mut st = AppState::load_or_default(None);
    st.add_transaction(tx((2024, 1, 1), "one", 1, "B", Currency::USD));
    st.add_transaction(tx((2024, 1, 2), "two", 2, "A", Currency::USD));
    st.add_transaction(tx((2024, 1, 3), "three", 3, "B", Currency::USD));
    assert_eq!(st.categories(), vec![String::from("A"), String::from("B")]);
}

#[test]
fn load_or_default_without_data_gives_empty_ledger() {
    let st = AppState::load_or_default(None);
    assert_eq!(st.data.transactions.len(), 0);
    assert_eq!(st.data.budget.monthly_limits.len(), 0);
    assert!(st.data.last_profile.is_none());
    assert_eq!(st.base_currency, Currency::USD);
    assert!(st.rates_api_error.is_none());
}

#[test]
fn load_replaces_resets_or_keeps() {
    let mut st = sample_state();
    st.load(LoadOutcome::NotRead);
    assert_eq!(st.data.transactions.len(), 2);
    let mut other = BudgetAppData::default();
    other.transactions.push(tx((2021, 1, 1), "Old", 5, "Misc", Currency::EUR));
    st.load(LoadOutcome::Parsed(other));
    assert_eq!(st.data.transactions.len(), 1);
    assert_eq!(st.data.transactions[0].description, "Old");
    st.load(LoadOutcome::Invalid);
    assert_eq!(st.data.transactions.len(), 0);
}

#[test]
fn add_and_delete_transactions() {
    let mut st = sample_state();
    st.delete_transaction(0);
    assert_eq!(st.data.transactions.len(), 1);
    assert_eq!(st.data.transactions[0].description, "Rent");
}

#[test]
fn budget_limits_set_get_and_overwrite() {
    let mut b = Budget::default();
    assert_eq!(b.limit_for("Food"), None);
    b.set_limit(String::from("Food"), CategoryBudget { amount: 10000, currency: Currency::USD });
    b.set_limit(String::from("Rent"), CategoryBudget { amount: 90000, currency: Currency::EUR });
    b.set_limit(String::from("Food"), CategoryBudget { amount: 20000, currency: Currency::USD });
    assert_eq!(b.monthly_limits.len(), 2);
    let food = b.limit_for("Food").unwrap();
    assert_eq!(food.amount, 20000);
    let rent = b.limit_for("Rent").unwrap();
    assert_eq!(rent.currency, Currency::EUR);
}

#[test]
fn budget_from_entries_keeps_last_entry_per_key() {
    let entries = vec![
        (String::from("Food"), CategoryBudget { amount: 1, currency: Currency::USD }),
        (String::from("Food"), CategoryBudget { amount: 2, currency: Currency::USD }),
    ];
    let b = Budget::from_entries(&entries);
    assert_eq!(b.monthly_limits.len(), 1);
    assert_eq!(b.limit_for("Food").unwrap().amount, 2);
}

#[test]
fn fetch_rates_stores_direct_and_inverse() {
    let mut st = AppState::load_or_default(None);
    st.fetch_exchange_rates(Ok(vec![(Currency::EUR, 2_000_000)]));
    assert!(st.rates_api_error.is_none());
    assert_eq!(st.exchange_rates.rate(Currency::USD, Currency::EUR), Some(2_000_000));
    assert_eq!(st.exchange_rates.rate(Currency::EUR, Currency::USD), Some(500_000));
}

#[test]
fn fetch_rates_skips_base_and_zero_rates() {
    let mut st = AppState::load_or_default(None);
    let before = st.exchange_rates.rate(Currency::USD, Currency::GBP);
    st.fetch_exchange_rates(Ok(vec![(Currency::USD, 1_000_000), (Currency::GBP, 0)]));
    assert_eq!(st.exchange_rates.rate(Currency::USD, Currency::GBP), before);
    assert_eq!(st.exchange_rates.rate(Currency::USD, Currency::USD), None);
}

#[test]
fn fetch_rates_failure_records_error_and_keeps_table() {
    let mut st = AppState::load_or_default(None);
    st.fetch_exchange_rates(Err(String::from("network down")));
    assert_eq!(st.rates_api_error.as_deref(), Some("network down"));
    assert_eq!(st.convert(1000, Currency::EUR, Currency::USD), 1100);
    st.fetch_exchange_rates(Ok(vec![]));
    assert!(st.rates_api_error.is_none());
}

#[test]
fn dates_validate_calendar_days() {
    assert!(Date::new(2024, 2, 29).is_some());
    assert!(Date::new(2023, 2, 29).is_none());
    assert!(Date::new(2024, 4, 31).is_none());
    assert!(Date::new(2024, 13, 1).is_none());
    assert!(Date::new(2024, 0, 1).is_none());
    assert!(Date::new(1900, 2, 29).is_none());
    assert!(Date::new(2000, 2, 29).is_some());
}
