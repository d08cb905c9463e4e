//! Decisions of the log formatter.

pub mod fmt;

pub use fmt::{LogLevel, MessageValueVisitor, PrefixKind, PrettierFormatter};
