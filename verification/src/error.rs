use vstd::prelude::*;

verus! {

/// Why sniffing failed.
#[derive(Debug)]
pub enum SnifferError {
    /// Reading the data failed.
    Io(String),
    /// The data did not allow the dialect to be inferred.
    SniffingFailed(String),
}

/// The message of a sniffing failure; `None` for another error.
pub open spec fn failure_message(e: SnifferError) -> Option<Seq<char>> {
    match e {
        SnifferError::SniffingFailed(m) => Some(m@),
        _ => None,
    }
}

/// Quoted cells were found, but no single byte followed any of them.
pub open spec fn msg_no_candidate() -> Seq<char> {
    "invalid regex match: no delimiter found"@
}

/// The regular expression of a quoted cell did not compile (with a given
/// delimiter that is special in a regular expression, such as `(`).
pub open spec fn msg_bad_pattern() -> Seq<char> {
    "invalid regex pattern for quoted cells"@
}

/// No candidate delimiter occurs steadily enough.
pub open spec fn msg_no_steady_delimiter() -> Seq<char> {
    "unable to find valid delimiter"@
}

/// The CSV reader filled its output buffer.
pub open spec fn msg_output_full() -> Seq<char> {
    "failure to read quoted CSV record: OutputFull"@
}

/// The CSV reader filled its buffer of field ends.
pub open spec fn msg_output_ends_full() -> Seq<char> {
    "failure to read quoted CSV record: OutputEndsFull"@
}

/// A known delimiter was to be checked, but the delimiter or the quote was unknown.
pub open spec fn msg_missing_dialect() -> Seq<char> {
    "infer_preamble_known_delim called without delimiter and quote"@
}

} // verus!
