use vstd::prelude::*;

verus! {

/// The quote character of a CSV dialect, if it has one.
#[derive(Clone, Copy, Debug, PartialEq, Eq, Structural)]
pub enum Quote {
    /// Fields are never quoted.
    Unquoted,
    /// Fields may be enclosed in this byte; a doubled quote inside a field stands for one.
    Quoted(u8),
}

/// The dialect of a CSV file: how its fields are separated and quoted.
#[derive(Clone, Copy, Debug, PartialEq, Eq, Structural)]
pub struct Dialect {
    /// The byte that separates the fields of a record.
    pub delimiter: u8,
    /// The quote character, if any.
    pub quote: Quote,
}

/// What sniffing a CSV file found out about it.
#[derive(Clone, Copy, Debug, PartialEq, Eq, Structural)]
pub struct Metadata {
    /// The dialect of the file.
    pub dialect: Dialect,
}

} // verus!
