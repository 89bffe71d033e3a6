//! Reading XDG desktop entry files.
//!
//! A desktop entry is a line-oriented text of named groups, each holding
//! `key=value` entries. This crate reads such a text into a [`DesktopEntry`]
//! and answers plain and locale-aware lookups on it.
//!
//! The format is that of the desktop files of freedesktop.org: the files
//! that describe the applications of a desktop, found as `*.desktop` below
//! the `applications` directories of the XDG data directories.
//!
//! - [`text`]: texts as bytes, and the cutting of string slices.
//! - [`grammar`]: the grammar of the files, as functions of the bytes.
//! - [`parser`]: a function for each rule of the grammar.
//! - [`tables`]: the tables that reading fills.
//! - [`locale`]: locales and their grammar.
//! - [`desktop_entry`]: the lookups, plain and by locale.
//! - [`discover`]: where the files are looked for.
//! - [`laws`]: what holds of all of these, proved.

pub mod desktop_entry;
pub mod discover;
pub mod errors;
pub mod grammar;
pub mod laws;
pub mod locale;
pub mod parser;
pub mod tables;
pub mod text;

pub use desktop_entry::{DesktopEntry, StandardKey};
pub use errors::{ParseError, ParseResult};
pub use locale::Locale;
