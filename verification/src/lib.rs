//! A personal-finance ledger engine: dated transactions in several
//! currencies, per-category monthly budgets, conversion of amounts into a
//! base currency through a table of directed rates, aggregate views over a
//! case-insensitive search filter, and a CSV codec for import and export.
//!
//! Amounts are fixed-point values in hundredths of a currency unit
//! ("cents"); rates are fixed-point factors in millionths. All file,
//! network and clock access is left to the caller, which hands the engine
//! plain values.

pub mod analytics;
pub mod assoc;
pub mod codec;
pub mod data;
pub mod text;
pub mod types;

pub use types::Currency;
