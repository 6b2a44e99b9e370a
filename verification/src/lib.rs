//! Human-readable duration literals such as `9 hrs`, `1h 30m` or `250ms`, parsed from
//! their bytes into a `core::time::Duration`.
//!
//! The grammar is stated in `grammar`, the unit table in `units`, the parser in `parse`,
//! and what holds of every literal in `laws` and `edits`.
pub mod grammar;
pub mod units;
pub mod parse;
pub mod edits;
pub mod laws;

pub use crate::grammar::Error;
pub use crate::parse::parse_duration;
pub use crate::parse::try_parse;
