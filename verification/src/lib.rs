//! Reading, editing and writing the header of a FITS file.
//!
//! A header is an ordered list of 80-byte cards. Parsing retains every card so that
//! untouched cards serialize byte-for-byte; keyword access is strict (a bare name must be
//! unique) and batch edits are all-or-nothing.

use vstd::prelude::*;

pub mod dates;
pub mod error;
pub mod header;
pub mod key;
pub mod number;
pub mod parse;
pub mod record;
pub mod region;
pub mod roundtrip;
pub mod text;
pub mod value;
pub mod whitespace;
pub mod write;

pub use crate::dates::{format_datetime, parse_datetime, DateTime};
pub use crate::error::FitsError;
pub use crate::header::Header;
pub use crate::key::{IntoKey, Key};
pub use crate::parse::parse;
pub use crate::record::{Record, RecordKind, Value};
pub use crate::region::{header_region_len, locate_header, splice_header};
pub use crate::text::IntoText;
pub use crate::value::{parse_i64, FromCard, IntoValue, Literal};

verus! {

/// Bytes per header card.
pub const CARD_LEN: usize = 80;

/// Bytes per FITS block (36 cards).
pub const BLOCK_LEN: usize = 2880;

} // verus!
