//! Reading records with a `csv_core` reader, with a record of what it was fed.
//!
//! What a `csv_core` reader reports for a call depends on its settings, on
//! everything it was fed before (its position inside a quoted field, or a
//! byte order mark at the very start) and on the input and the sizes of the
//! buffers.  The reader here carries those as ghost state, so that the result
//! of each call is a function of them.
use vstd::prelude::*;

verus! {

#[verifier::external_type_specification]
#[verifier::external_body]
pub struct ExCsvCoreReader(csv_core::Reader);

/// What a call of `csv_core::Reader::read_record` reports.
#[derive(Clone, Copy, Debug, PartialEq, Eq, Structural)]
pub enum RecordOutcome {
    /// The input ended before the record did.
    InputEmpty,
    /// The output buffer filled up.
    OutputFull,
    /// The buffer of field ends filled up.
    OutputEndsFull,
    /// A record ended.
    Record,
    /// All data was read.
    End,
}

/// What `csv_core::Reader::read_record` returns: the outcome, the number of
/// input bytes read, of output bytes written and of field ends written.
///
/// The arguments are the reader's delimiter and quote, what it was fed
/// before (each call's input with the lengths of its two buffers), the input,
/// and the lengths of the output buffer and of the buffer of field ends.
pub uninterp spec fn csv_step(
    delimiter: u8,
    quote: u8,
    fed: Seq<(Seq<u8>, nat, nat)>,
    input: Seq<u8>,
    out_len: nat,
    ends_len: nat,
) -> (RecordOutcome, usize, usize, usize);

/// A `csv_core` reader, with its delimiter and quote and what it was fed.
pub struct CsvLineReader {
    rdr: csv_core::Reader,
    settings: Ghost<(u8, u8)>,
    fed: Ghost<Seq<(Seq<u8>, nat, nat)>>,
}

impl CsvLineReader {
    /// The delimiter the reader was built with.
    pub closed spec fn delimiter(&self) -> u8 {
        self.settings@.0
    }

    /// The quote character the reader was built with.
    pub closed spec fn quote(&self) -> u8 {
        self.settings@.1
    }

    /// Every call's input so far, with the lengths of its output buffer and
    /// of its buffer of field ends, in order.
    pub closed spec fn fed(&self) -> Seq<(Seq<u8>, nat, nat)> {
        self.fed@
    }
}

/// Calls `csv_core::ReaderBuilder::new`, sets the delimiter and the quote,
/// and builds the reader.
///
/// Trusted: the reader has the given delimiter and quote, and was fed
/// nothing yet.
#[verifier::external_body]
pub(crate) fn csv_reader(delimiter: u8, quote: u8) -> (r: CsvLineReader)
    ensures
        r.delimiter() == delimiter,
        r.quote() == quote,
        r.fed() == Seq::<(Seq<u8>, nat, nat)>::empty(),
{
    let rdr = csv_core::ReaderBuilder::new().delimiter(delimiter).quote(quote).build();
    CsvLineReader { rdr, settings: Ghost((delimiter, quote)), fed: Ghost(Seq::empty()) }
}

/// Calls `csv_core::Reader::read_record` on the whole buffers.
///
/// Trusted: the result is `csv_step` of the reader's settings, what it was
/// fed before, the input and the buffer lengths; the call is then added to
/// what it was fed (ghost state, which exists only for the proofs).  The
/// buffers keep their lengths, and no more input bytes are read, output bytes
/// written or field ends written than they hold.
#[verifier::external_body]
pub(crate) fn read_record(r: &mut CsvLineReader, input: &[u8], output: &mut Vec<u8>, ends: &mut Vec<usize>) -> (res: (
    RecordOutcome,
    usize,
    usize,
    usize,
))
    ensures
        res == csv_step(
            old(r).delimiter(),
            old(r).quote(),
            old(r).fed(),
            input@,
            old(output)@.len(),
            old(ends)@.len(),
        ),
        final(r).delimiter() == old(r).delimiter(),
        final(r).quote() == old(r).quote(),
        final(r).fed() == old(r).fed().push((input@, old(output)@.len(), old(ends)@.len())),
        final(output)@.len() == old(output)@.len(),
        final(ends)@.len() == old(ends)@.len(),
        res.1 <= input@.len(),
        res.2 <= old(output)@.len(),
        res.3 <= old(ends)@.len(),
{
    let (outcome, nin, nout, nend) = r.rdr.read_record(input, output.as_mut_slice(), ends.as_mut_slice());
    let outcome = match outcome {
        csv_core::ReadRecordResult::InputEmpty => RecordOutcome::InputEmpty,
        csv_core::ReadRecordResult::OutputFull => RecordOutcome::OutputFull,
        csv_core::ReadRecordResult::OutputEndsFull => RecordOutcome::OutputEndsFull,
        csv_core::ReadRecordResult::Record => RecordOutcome::Record,
        csv_core::ReadRecordResult::End => RecordOutcome::End,
    };
    (outcome, nin, nout, nend)
}

} // verus!
