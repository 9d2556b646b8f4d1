use budget_ledger::codec::{format_amount, parse_amount, parse_date, ImportError};
use budget_ledger::types::{AppState, Currency, Date, Transaction};

fn tx(date: (u32, u32, u32), desc: &str, cents: i64, cat: &str, currency: Currency) -> Transaction {
    Transaction {
        date: Date { year: date.0, month: date.1, day: date.2 },
        description: String::from(desc),
        amount: cents,
        category: String::from(cat),
        recurring: false,
        currency,
    }
}

#[test]
fn amounts_format_with_two_fraction_digits() {
    assert_eq!(format_amount(350), "3.50");
    assert_eq!(format_amount(120000), "1200.00");
    assert_eq!(format_amount(-5), "-0.05");
    assert_eq!(format_amount(0), "0.00");
}

#[test]
fn amounts_parse_decimals() {
    assert_eq!(parse_amount("3.50"), Some(350));
    assert_eq!(parse_amount("3.5"), Some(350));
    assert_eq!(parse_amount("1200"), Some(120000));
    assert_eq!(parse_amount("-0.05"), Some(-5));
    assert_eq!(parse_amount("0"), Some(0));
    assert_eq!(parse_amount(""), None);
    assert_eq!(parse_amount("-"), None);
    assert_eq!(parse_amount("3.456"), None);
    assert_eq!(parse_amount("3."), None);
    assert_eq!(parse_amount("a4"), None);
    assert_eq!(parse_amount("1.2.3"), None);
    assert_eq!(parse_amount("99999999999999999999999999"), None);
}

#[test]
fn dates_parse_dashed_form() {
    assert_eq!(parse_date("2024-05-01"), Some(Date { year: 2024, month: 5, day: 1 }));
    assert_eq!(parse_date("2024-02-29"), Some(Date { year: 2024, month: 2, day: 29 }));
    assert_eq!(parse_date("2023-02-29"), None);
    assert_eq!(parse_date("2024-5-1"), None);
    assert_eq!(parse_date("2024/05/01"), None);
    assert_eq!(parse_date("nonsense"), None);
}

#[test]
fn export_writes_header_and_rows() {
    let mut st = AppState::load_or_default(None);
    st.add_transaction(tx((2024, 5, 1), "Coffee", 350, "Food", Currency::USD));
    st.add_transaction(tx((2024, 5, 15), "Rent", 120000, "Housing", Currency::EUR));
    let text = st.export_csv();
    assert_eq!(
        text,
        "date,description,amount,currency,category,recurring\n\
         2024-05-01,Coffee,3.50,USD,Food,false\n\
         2024-05-15,Rent,1200.00,EUR,Housing,false\n"
    );
}

#[test]
fn export_then_import_reproduces_transactions() {
    let mut st = AppState::load_or_default(None);
    st.add_transaction(tx((2024, 5, 1), "Coffee", 350, "Food", Currency::USD));
    let mut rent = tx((2024, 5, 15), "Rent", 120000, "Housing", Currency::EUR);
    rent.recurring = true;
    st.add_transaction(rent);
    st.add_transaction(tx((2020, 12, 31), "Refund", -4599, "Misc", Currency::JPY));
    let text = st.export_csv();
    let mut fresh = AppState::load_or_default(None);
    assert_eq!(fresh.import_csv(&text), Ok(()));
    assert_eq!(fresh.data.transactions, st.data.transactions);
}

#[test]
fn import_empty_text_appends_nothing() {
    let mut st = AppState::load_or_default(None);
    assert_eq!(st.import_csv(""), Ok(()));
    assert_eq!(st.import_csv("date,description,amount,currency,category,recurring\n"), Ok(()));
    assert_eq!(st.data.transactions.len(), 0);
}

#[test]
fn import_stops_at_first_malformed_row() {
    let mut st = AppState::load_or_default(None);
    let text = "date,description,amount,currency,category,recurring\n\
                2024-05-01,Coffee,3.50,USD,Food,false\n\
                2024-05-02,Tea,2.00,USD,Food,false\n\
                2024-05-03,Broken,not-a-number,USD,Food,false\n\
                2024-05-04,Never,1.00,USD,Food,false\n";
    assert_eq!(st.import_csv(text), Err(ImportError::BadAmount));
    assert_eq!(st.data.transactions.len(), 2);
    assert_eq!(st.data.transactions[0].description, "Coffee");
    assert_eq!(st.data.transactions[1].description, "Tea");
}

#[test]
fn import_reports_each_failure_kind() {
    let header = "date,description,amount,currency,category,recurring\n";
    let mut st = AppState::load_or_default(None);
    let bad_fields = format!("{}too,few,fields\n", header);
    assert_eq!(st.import_csv(&bad_fields), Err(ImportError::FieldCount));
    let bad_date = format!("{}2024-13-01,x,1.00,USD,c,false\n", header);
    assert_eq!(st.import_csv(&bad_date), Err(ImportError::BadDate));
    let bad_amount = format!("{}2024-05-01,x,one,USD,c,false\n", header);
    assert_eq!(st.import_csv(&bad_amount), Err(ImportError::BadAmount));
    let bad_flag = format!("{}2024-05-01,x,1.00,USD,c,maybe\n", header);
    assert_eq!(st.import_csv(&bad_flag), Err(ImportError::BadRecurring));
    assert_eq!(st.data.transactions.len(), 0);
}

#[test]
fn import_defaults_unknown_currency_to_usd() {
    let mut st = AppState::load_or_default(None);
    let text = "date,description,amount,currency,category,recurring\n\
                2024-05-01,Souvenir,9.99,AUD,Travel,true\n";
    assert_eq!(st.import_csv(text), Ok(()));
    assert_eq!(st.data.transactions.len(), 1);
    assert_eq!(st.data.transactions[0].currency, Currency::USD);
    assert!(st.data.transactions[0].recurring);
}

#[test]
fn import_without_trailing_newline() {
    let mut st = AppState::load_or_default(None);
    let text = "date,description,amount,currency,category,recurring\n\
                2024-05-01,Coffee,3.50,USD,Food,false";
    assert_eq!(st.import_csv(text), Ok(()));
    assert_eq!(st.data.transactions.len(), 1);
    assert_eq!(st.data.transactions[0].amount, 350);
}

#[test]
fn export_quotes_fields_that_need_it() {
    let mut st = AppState::load_or_default(None);
    st.add_transaction(tx(
        (2024, 5, 1),
        "milk, 2% \"fresh\"",
        199,
        "Food",
        Currency::USD,
    ));
    let text = st.export_csv();
    assert_eq!(
        text,
        "date,description,amount,currency,category,recurring\n\
         2024-05-01,\"milk, 2% \"\"fresh\"\"\",1.99,USD,Food,false\n"
    );
}

#[test]
fn round_trip_survives_commas_quotes_and_line_breaks() {
    let mut st = AppState::load_or_default(None);
    st.add_transaction(tx(
        (2024, 5, 1),
        "tea, \"large\"\nsecond line\rthird",
        350,
        "Food, drinks",
        Currency::EUR,
    ));
    st.add_transaction(tx((2024, 5, 2), "plain", 100, "Misc", Currency::USD));
    let text = st.export_csv();
    let mut fresh = AppState::load_or_default(None);
    assert_eq!(fresh.import_csv(&text), Ok(()));
    assert_eq!(fresh.data.transactions, st.data.transactions);
}

#[test]
fn import_reads_quoted_fields() {
    let mut st = AppState::load_or_default(None);
    let text = "date,description,amount,currency,category,recurring\n\
                2024-05-01,\"a,b\nc\",1.00,USD,\"q\"\"q\",false\n";
    assert_eq!(st.import_csv(text), Ok(()));
    assert_eq!(st.data.transactions.len(), 1);
    assert_eq!(st.data.transactions[0].description, "a,b\nc");
    assert_eq!(st.data.transactions[0].category, "q\"q");
}

#[test]
fn import_accepts_crlf_line_endings() {
    let mut st = AppState::load_or_default(None);
    let text = "date,description,amount,currency,category,recurring\r\n\
                2024-05-01,Coffee,3.50,USD,Food,false\r\n";
    assert_eq!(st.import_csv(text), Ok(()));
    assert_eq!(st.data.transactions.len(), 1);
    assert_eq!(st.data.transactions[0].description, "Coffee");
}

#[test]
fn import_skips_blank_lines() {
    let mut st = AppState::load_or_default(None);
    let text = "\ndate,description,amount,currency,category,recurring\n\
                \n\
                2024-05-01,Coffee,3.50,USD,Food,false\n\
                \n\
                2024-05-02,Tea,2.00,USD,Food,false\n\n";
    assert_eq!(st.import_csv(text), Ok(()));
    assert_eq!(st.data.transactions.len(), 2);
    assert_eq!(st.data.transactions[1].description, "Tea");
}
