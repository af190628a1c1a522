//! Counting delimiters per line: plainly with `bytecount`, or, when fields
//! may be quoted, as field boundaries found by a `csv_core` reader.
use vstd::prelude::*;

use vstd::utf8::*;

use crate::error::{failure_message, msg_output_ends_full, msg_output_full, SnifferError};
use crate::quote::texts;
use crate::record::{csv_reader, csv_step, read_record, RecordOutcome};

verus! {

/// The number of times `b` occurs in `s`.
pub open spec fn occurrences(s: Seq<u8>, b: u8) -> nat
    decreases s.len(),
{
    if s.len() == 0 {
        0
    } else {
        occurrences(s.drop_last(), b) + if s.last() == b {
            1nat
        } else {
            0
        }
    }
}

/// Calls `bytecount::count`.
///
/// Trusted: the result is the number of occurrences of `needle` in `haystack`.
#[verifier::external_body]
pub(crate) fn count_byte(haystack: &[u8], needle: u8) -> (n: usize)
    ensures
        n == occurrences(haystack@, needle),
{
    bytecount::count(haystack, needle)
}

/// Where reading lines with one `csv_core` reader stands: what it was fed,
/// the lengths of the two buffers, one count of field ends per line read,
/// and the outcome that stopped the reading, if one did.
pub struct CsvRun {
    pub fed: Seq<(Seq<u8>, nat, nat)>,
    pub out_len: nat,
    pub ends_len: nat,
    pub counts: Seq<usize>,
    pub failure: Option<RecordOutcome>,
}

/// The larger of two lengths.
pub open spec fn max_len(a: nat, b: nat) -> nat {
    if a >= b {
        a
    } else {
        b
    }
}

/// Reading the UTF-8 bytes of `lines` in turn with one reader for
/// `delimiter` and `quote`.
///
/// Both buffers start empty and grow to the length of each line before it is
/// read.  Each line's count is the number of field ends the reader reports;
/// a full output buffer or buffer of field ends stops the reading.
pub open spec fn csv_run(delimiter: u8, quote: u8, lines: Seq<Seq<char>>) -> CsvRun
    decreases lines.len(),
{
    if lines.len() == 0 {
        CsvRun { fed: Seq::empty(), out_len: 0, ends_len: 0, counts: Seq::empty(), failure: None }
    } else {
        let prev = csv_run(delimiter, quote, lines.drop_last());
        if prev.failure is Some {
            prev
        } else {
            let line = encode_utf8(lines.last());
            let out_len = max_len(prev.out_len, line.len());
            let ends_len = max_len(prev.ends_len, line.len());
            let (outcome, _, _, n_ends) = csv_step(delimiter, quote, prev.fed, line, out_len, ends_len);
            let fed = prev.fed.push((line, out_len, ends_len));
            if outcome == RecordOutcome::OutputFull || outcome == RecordOutcome::OutputEndsFull {
                CsvRun { fed, out_len, ends_len, counts: prev.counts, failure: Some(outcome) }
            } else {
                CsvRun { fed, out_len, ends_len, counts: prev.counts.push(n_ends), failure: None }
            }
        }
    }
}

/// The number of field ends in each line, read as `csv_run` does, or the
/// outcome that stopped the reading.
pub open spec fn csv_counts(delimiter: u8, quote: u8, lines: Seq<Seq<char>>) -> Result<Seq<usize>, RecordOutcome> {
    let run = csv_run(delimiter, quote, lines);
    match run.failure {
        Some(o) => Err(o),
        None => Ok(run.counts),
    }
}

/// The message of a reading stopped by `outcome`.
pub open spec fn record_failure_message(outcome: RecordOutcome) -> Seq<char> {
    if outcome == RecordOutcome::OutputEndsFull {
        msg_output_ends_full()
    } else {
        msg_output_full()
    }
}

proof fn lemma_csv_run_stopped(delimiter: u8, quote: u8, lines: Seq<Seq<char>>, j: int, k: int)
    requires
        0 <= j <= k <= lines.len(),
        csv_run(delimiter, quote, lines.take(j)).failure is Some,
    ensures
        csv_run(delimiter, quote, lines.take(k)) == csv_run(delimiter, quote, lines.take(j)),
    decreases k - j,
{
    if j < k {
        lemma_csv_run_stopped(delimiter, quote, lines, j, k - 1);
        assert(lines.take(k).drop_last() =~= lines.take(k - 1));
    }
}

proof fn lemma_csv_run_counts_len(delimiter: u8, quote: u8, lines: Seq<Seq<char>>)
    ensures
        csv_run(delimiter, quote, lines).failure is None ==> csv_run(delimiter, quote, lines).counts.len()
            == lines.len(),
    decreases lines.len(),
{
    if lines.len() > 0 {
        lemma_csv_run_counts_len(delimiter, quote, lines.drop_last());
    }
}

/// How reading lines feeds the reader: the lines, in order, each as its UTF-8
/// bytes, until the reading stops; each with buffers at least as long as the
/// line, which never shrink and grow only to the length of the line being
/// read (so that each is as long as the longest line so far).  Without a
/// full buffer every line is read and counted.
pub proof fn lemma_csv_run_buffers(delimiter: u8, quote: u8, lines: Seq<Seq<char>>)
    ensures
        ({
            let r = csv_run(delimiter, quote, lines);
            &&& r.fed.len() <= lines.len()
            &&& r.failure is None ==> r.fed.len() == lines.len() && r.counts.len() == lines.len()
            &&& r.fed.len() == 0 ==> r.out_len == 0 && r.ends_len == 0
            &&& r.fed.len() > 0 ==> r.out_len == r.fed.last().1 && r.ends_len == r.fed.last().2
            &&& forall|k: int|
                0 <= k < r.fed.len() ==> {
                    let e = #[trigger] r.fed[k];
                    &&& e.0 == encode_utf8(lines[k])
                    &&& e.1 >= e.0.len()
                    &&& e.2 >= e.0.len()
                    &&& k == 0 ==> e.1 == e.0.len() && e.2 == e.0.len()
                    &&& k > 0 ==> e.1 >= r.fed[k - 1].1 && e.2 >= r.fed[k - 1].2
                    &&& k > 0 ==> (e.1 == e.0.len() || e.1 == r.fed[k - 1].1)
                    &&& k > 0 ==> (e.2 == e.0.len() || e.2 == r.fed[k - 1].2)
                }
        }),
    decreases lines.len(),
{
    if lines.len() > 0 {
        let prev_lines = lines.drop_last();
        lemma_csv_run_buffers(delimiter, quote, prev_lines);
        let prev = csv_run(delimiter, quote, prev_lines);
        let r = csv_run(delimiter, quote, lines);
        assert forall|k: int| 0 <= k < prev.fed.len() implies prev_lines[k] == lines[k] by {}
        if prev.failure is None {
            assert(r.fed == prev.fed.push(r.fed.last()));
            assert forall|k: int| 0 <= k < r.fed.len() implies #[trigger] r.fed[k] == (if k < prev.fed.len() {
                prev.fed[k]
            } else {
                r.fed.last()
            }) by {}
        }
    }
}

/// The number of field boundaries (delimiters outside quotes) in each line,
/// read with one `csv_core` reader for `delimiter` and `quote`, so that a
/// quoted field may span lines.
///
/// Each line is handed to the reader as it is, with buffers at least as long
/// as the line.  The result is `csv_counts`: one count per line, or, when the
/// reader reports a full buffer, the error "failure to read quoted CSV
/// record: ..." with the outcome's name.
pub fn quoted_field_counts(lines: &Vec<String>, delimiter: u8, quote: u8) -> (res: Result<Vec<usize>, SnifferError>)
    ensures
        match csv_counts(delimiter, quote, texts(lines@)) {
            Ok(c) => (res matches Ok(v) && v@ == c),
            Err(o) => (res matches Err(e) && failure_message(e) == Some(record_failure_message(o))),
        },
        res matches Ok(v) ==> v@.len() == lines@.len(),
{
    broadcast use vstd::string::to_string_from_display_ensures_for_str;

    let ghost ls = texts(lines@);
    let mut reader = csv_reader(delimiter, quote);
    let mut output: Vec<u8> = Vec::new();
    let mut ends: Vec<usize> = Vec::new();
    let mut counts: Vec<usize> = Vec::new();
    let mut i: usize = 0;
    assert(ls.take(0) =~= Seq::<Seq<char>>::empty());
    while i < lines.len()
        invariant
            i <= lines@.len(),
            ls == texts(lines@),
            reader.delimiter() == delimiter,
            reader.quote() == quote,
            csv_run(delimiter, quote, ls.take(i as int)) == (CsvRun {
                fed: reader.fed(),
                out_len: output@.len(),
                ends_len: ends@.len(),
                counts: counts@,
                failure: None,
            }),
        decreases lines@.len() - i,
    {
        let line = lines[i].as_str().as_bytes();
        let ghost prev = csv_run(delimiter, quote, ls.take(i as int));
        proof {
            assert(ls.take(i + 1).drop_last() =~= ls.take(i as int));
            assert(ls.take(i + 1).last() == lines@[i as int]@);
        }
        if line.len() > output.len() {
            output.resize(line.len(), 0);
        }
        if line.len() > ends.len() {
            ends.resize(line.len(), 0);
        }
        assert(output@.len() == max_len(prev.out_len, line@.len()));
        assert(ends@.len() == max_len(prev.ends_len, line@.len()));
        let (outcome, _, _, n_ends) = read_record(&mut reader, line, &mut output, &mut ends);
        match outcome {
            RecordOutcome::OutputFull => {
                proof {
                    lemma_csv_run_stopped(delimiter, quote, ls, i + 1, ls.len() as int);
                    assert(ls.take(ls.len() as int) =~= ls);
                }
                return Err(
                    SnifferError::SniffingFailed(
                        "failure to read quoted CSV record: OutputFull".to_string(),
                    ),
                );
            },
            RecordOutcome::OutputEndsFull => {
                proof {
                    lemma_csv_run_stopped(delimiter, quote, ls, i + 1, ls.len() as int);
                    assert(ls.take(ls.len() as int) =~= ls);
                }
                return Err(
                    SnifferError::SniffingFailed(
                        "failure to read quoted CSV record: OutputEndsFull".to_string(),
                    ),
                );
            },
            _ => {},
        }
        counts.push(n_ends);
        i = i + 1;
    }
    proof {
        assert(ls.take(lines@.len() as int) =~= ls);
        lemma_csv_run_counts_len(delimiter, quote, ls);
    }
    Ok(counts)
}

} // verus!
