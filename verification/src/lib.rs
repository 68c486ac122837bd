//! Reading and writing tag index files in the extended tab-separated format
//! of Universal Ctags.
//!
//! The heart of the crate is a pair of inverse operations on one line of such
//! a file: [`CtagItem::parse`] turns text into tag entries, and
//! [`CtagItem::encode`] turns one entry back into its line.

pub mod ctag_item;
pub mod document;
pub mod fields;
pub mod grammar;
pub mod language;
pub mod round_trip;
pub mod tags_reader;
pub mod text;
pub mod token_kind;

pub use ctag_item::{CtagItem, CtagsParseError, ParseFailure};
pub use grammar::FailureReason;
pub use language::Language;
pub use tags_reader::{ReadCtagsError, TagsReader};
pub use token_kind::TokenKind;
