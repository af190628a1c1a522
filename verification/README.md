# csv_scout

Infers the dialect of CSV data — the field delimiter and the quote
character — from a sample of its first lines, specified and proved in Verus.

## Layout

- `src/` — the verified library.
  - `sample.rs`: the sample of lines taken from the start of the data.
  - `text.rs`: UTF-8 decoding of the sampled lines (trusted calls into std).
  - `quote.rs`: counting quoted cells with `regex`, and tallying the byte that
    follows them in a `hashbrown` map to suggest the delimiter.
  - `record.rs`: a `csv_core` reader that keeps, as ghost state, what it was
    fed, so that what each call reports is a function of it.
  - `fields.rs`: per-line delimiter counts, with `bytecount`, or as field
    boundaries found by a `csv_core` reader for quoted data.
  - `chain.rs`: a three-state hidden Markov model over the per-line counts of a
    candidate delimiter, decoded with the Viterbi algorithm on integer costs,
    with a proof that the decoded path is a likeliest one.
  - `sniffer.rs`: the `Sniffer`, its specification as functions of the data,
    and the laws proved of it.
  - `metadata.rs`, `error.rs`: the result and error types.
- `tests/` — tests of the library.
- `app/` — reading files and streams, and opening them with the `csv` crate
  in the dialect found.

Every call into an outside crate goes through a small trusted function whose
contract says what the crate's source shows; the rest is verified.  Where an
outside result would take pages to state (whether `regex` accepts a pattern,
which cells it matches, how many field ends `csv_core` reports, how invalid
UTF-8 is decoded), the contract gives it a name and says that it depends on
the call's arguments alone: the library is proved correct for whatever those
named results are, but nothing here proves what they are.
