//! Parser for colon-delimited diagnostic lines of the shape
//! `file:line:column:message`.
//!
//! The input text is first filtered: lines starting with `#` are comments
//! and are skipped. Every remaining line must be a well-formed record, or
//! the whole batch fails with a typed error attributing the failure to the
//! offending field of the first malformed line.

pub mod number;
pub mod record;
pub mod text;

pub use number::NumError;
pub use record::{parse, Error, ErrorLine, ErrorLineModel};
