//! Infers the dialect of CSV data: the field delimiter and the quote character.
//!
//! A sample of the first lines is examined.  Quoted cells are counted with a
//! regular expression to find the quote character, and the byte that follows
//! them suggests the delimiter.  Otherwise every ASCII byte is a candidate, and
//! the one whose count per line is steadiest, as decoded by a hidden Markov
//! model, is the delimiter.

pub mod chain;
pub mod error;
pub mod fields;
pub mod metadata;
pub mod quote;
pub mod record;
pub mod sample;
pub mod sniffer;
pub mod text;

pub use error::SnifferError;
pub use metadata::{Dialect, Metadata, Quote};
pub use sample::SampleSize;
pub use sniffer::Sniffer;
