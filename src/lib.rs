//! A desktop calculator's engine: a display buffer driven by key presses,
//! exact decimal arithmetic with rounding, and a bounded history log.
pub mod decimal;
pub mod engine;
pub mod history;
pub mod laws;
pub mod numeral;
pub mod text;

pub use decimal::{format_number, parse_decimal, Decimal};
pub use engine::CalcApp;
pub use history::{history_text, parse_history, HistoryEntry, MAX_HISTORY};
