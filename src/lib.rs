//! A reader for an INI-style configuration dialect: named sessions of
//! key/value text pairs, with quoting, escapes and inline comments.
pub mod text;
pub mod scan;
pub mod assoc;
pub mod document;
pub mod laws;

pub use scan::{ParseErrorKind, ParseLineResult, parse_line, only_starts_with, only_ends_with, contains_chars};
pub use document::{Ini, Session, Loader, ParseError, parse_lines};
