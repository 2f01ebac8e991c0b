//! Most-active-cookie analysis over a cookie activity log.
//!
//! The log is a text of comma-separated records, one per line, under a
//! header line. [`parse_logs`] turns the text into typed entries and
//! [`get_max_freq_date`] reports every cookie that was seen most often on
//! a given calendar date.

pub mod analysis;
pub mod date;
pub mod digits;
pub mod entry;
pub mod text;
pub mod timestamp;

pub use analysis::get_max_freq_date;
pub use date::{FilterDate, MalformedFilterDate};
pub use entry::{parse_logs, LogEntry, ParseError, RecordError};
pub use timestamp::Timestamp;
