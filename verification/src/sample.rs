//! Taking a sample of lines from the start of CSV data.
use vstd::prelude::*;
use vstd::utf8::*;

use crate::fields::occurrences;
use crate::text::{decode_lossy, is_valid_utf8, utf8_lossy};

verus! {

/// How much of the data to examine.
#[derive(Clone, Copy, Debug, PartialEq, Eq, Structural)]
pub enum SampleSize {
    /// At most this many lines.
    Records(usize),
    /// Lines until their bytes, line ends included, would exceed this count.
    Bytes(usize),
    /// Every line.
    All,
}

/// A line ending byte: `\n` or `\r`.
pub open spec fn is_eol(b: u8) -> bool {
    b == 10 || b == 13
}

/// The end of the line that starts at `pos`: just past its `\n`, or the end
/// of the data.
pub open spec fn line_end(data: Seq<u8>, pos: int) -> int
    decreases data.len() - pos,
{
    if pos >= data.len() {
        data.len() as int
    } else if data[pos] == 10 {
        pos + 1
    } else {
        line_end(data, pos + 1)
    }
}

/// The index of the first byte of `s` at or after `i` that is no line ending byte.
pub open spec fn lead_eol(s: Seq<u8>, i: int) -> int
    decreases s.len() - i,
{
    if 0 <= i < s.len() && is_eol(s[i]) {
        lead_eol(s, i + 1)
    } else {
        i
    }
}

/// The index just past the last byte of `s[lo..j]` that is no line ending byte.
pub open spec fn trail_eol(s: Seq<u8>, lo: int, j: int) -> int
    decreases j - lo,
{
    if j > lo && is_eol(s[j - 1]) {
        trail_eol(s, lo, j - 1)
    } else {
        j
    }
}

/// `s` without the line ending bytes at its start and at its end.
pub open spec fn trim_eol(s: Seq<u8>) -> Seq<u8> {
    let lo = lead_eol(s, 0);
    s.subrange(lo, trail_eol(s, lo, s.len() as int))
}

/// Reading `n_records` lines that end at `n_bytes` goes past the sample size.
pub open spec fn exceeds(size: SampleSize, n_bytes: int, n_records: int) -> bool {
    match size {
        SampleSize::Records(m) => n_records > m,
        SampleSize::Bytes(m) => n_bytes > m,
        SampleSize::All => false,
    }
}

/// The sampled lines, line endings trimmed, from the line at `pos` on, after
/// `n_records` lines were taken.
///
/// A line is taken when it ends in `\n` or `\r` and taking it keeps within the
/// sample size; the first line that does not stops the sample.
pub open spec fn sample_from(data: Seq<u8>, size: SampleSize, pos: int, n_records: int) -> Seq<Seq<u8>>
    decreases data.len() - pos,
{
    if pos < 0 || pos >= data.len() {
        Seq::empty()
    } else {
        let end = line_end(data, pos);
        if end <= pos || end > data.len() {
            Seq::empty()
        } else if !is_eol(data[end - 1]) {
            Seq::empty()
        } else if exceeds(size, end, n_records + 1) {
            Seq::empty()
        } else {
            seq![trim_eol(data.subrange(pos, end))] + sample_from(data, size, end, n_records + 1)
        }
    }
}

/// The sampled lines of `data`, as bytes.
pub open spec fn sample_lines(data: Seq<u8>, size: SampleSize) -> Seq<Seq<u8>> {
    sample_from(data, size, 0, 0)
}

/// The sampled lines of `data`, as text.
pub open spec fn sample_text(data: Seq<u8>, size: SampleSize) -> Seq<Seq<char>> {
    sample_lines(data, size).map_values(|l: Seq<u8>| utf8_lossy(l))
}

/// Every sampled line of `data` is well-formed UTF-8.
pub open spec fn sample_is_utf8(data: Seq<u8>, size: SampleSize) -> bool {
    forall|i: int|
        0 <= i < sample_lines(data, size).len() ==> valid_utf8(#[trigger] sample_lines(data, size)[i])
}

proof fn lemma_line_end_bounds(data: Seq<u8>, pos: int)
    requires
        0 <= pos < data.len(),
    ensures
        pos < line_end(data, pos) <= data.len(),
    decreases data.len() - pos,
{
    if data[pos] != 10 {
        if pos + 1 < data.len() {
            lemma_line_end_bounds(data, pos + 1);
        } else {
            assert(line_end(data, pos + 1) == data.len());
        }
    }
}

proof fn lemma_lead_eol_bounds(s: Seq<u8>, i: int)
    requires
        0 <= i <= s.len(),
    ensures
        i <= lead_eol(s, i) <= s.len(),
    decreases s.len() - i,
{
    if i < s.len() && is_eol(s[i]) {
        lemma_lead_eol_bounds(s, i + 1);
    }
}

proof fn lemma_trail_eol_bounds(s: Seq<u8>, lo: int, j: int)
    requires
        lo <= j,
    ensures
        lo <= trail_eol(s, lo, j) <= j,
    decreases j - lo,
{
    if j > lo && is_eol(s[j - 1]) {
        lemma_trail_eol_bounds(s, lo, j - 1);
    }
}

/// The line ending bytes are trimmed off `data[pos..end]`: the bounds of what is left.
fn trim_bounds(data: &[u8], pos: usize, end: usize) -> (r: (usize, usize))
    requires
        pos <= end <= data@.len(),
    ensures
        pos <= r.0 <= r.1 <= end,
        data@.subrange(r.0 as int, r.1 as int) == trim_eol(data@.subrange(pos as int, end as int)),
{
    let ghost s = data@.subrange(pos as int, end as int);
    let mut lo = pos;
    while lo < end && (data[lo] == 10 || data[lo] == 13)
        invariant
            pos <= lo <= end <= data@.len(),
            s == data@.subrange(pos as int, end as int),
            lead_eol(s, 0) == lead_eol(s, lo - pos),
        decreases end - lo,
    {
        lo = lo + 1;
    }
    proof {
        lemma_lead_eol_bounds(s, lo - pos);
    }
    let mut hi = end;
    while hi > lo && (data[hi - 1] == 10 || data[hi - 1] == 13)
        invariant
            pos <= lo <= hi <= end <= data@.len(),
            s == data@.subrange(pos as int, end as int),
            lead_eol(s, 0) == lo - pos,
            trail_eol(s, lo - pos, s.len() as int) == trail_eol(s, lo - pos, hi - pos),
        decreases hi - lo,
    {
        hi = hi - 1;
    }
    proof {
        lemma_trail_eol_bounds(s, lo - pos, hi - pos);
        assert(data@.subrange(lo as int, hi as int) =~= s.subrange(lo - pos, hi - pos));
    }
    (lo, hi)
}

/// Takes the sample of lines from the start of `data`.
///
/// Lines end after each `\n`.  A line is taken, its line ending bytes
/// trimmed from both ends and its bytes decoded as UTF-8 (invalid sequences
/// replaced), while it ends in `\n` or `\r` and taking it keeps the number of
/// lines and of bytes read within `sample_size`.  Each line holds each ASCII
/// byte as often as the bytes it was decoded from.  The flag says whether
/// every taken line was well-formed UTF-8.
pub fn take_sample_from_start(data: &[u8], sample_size: SampleSize) -> (res: (Vec<String>, bool))
    ensures
        res.0@.len() == sample_lines(data@, sample_size).len(),
        forall|i: int|
            0 <= i < res.0@.len() ==> (#[trigger] res.0@[i])@ == utf8_lossy(
                sample_lines(data@, sample_size)[i],
            ),
        forall|i: int, c: u8|
            0 <= i < res.0@.len() && c < 128 ==> #[trigger] occurrences(encode_utf8(res.0@[i]@), c)
                == occurrences(sample_lines(data@, sample_size)[i], c),
        res.1 == sample_is_utf8(data@, sample_size),
{
    let mut lines: Vec<String> = Vec::new();
    let mut all_utf8 = true;
    let mut pos: usize = 0;
    let mut n_records: usize = 0;
    let ghost full = sample_lines(data@, sample_size);
    let ghost mut taken: Seq<Seq<u8>> = Seq::empty();
    loop
        invariant
            pos <= data@.len(),
            n_records <= pos,
            n_records == taken.len(),
            lines@.len() == taken.len(),
            full == sample_lines(data@, sample_size),
            full == taken + sample_from(data@, sample_size, pos as int, n_records as int),
            forall|i: int| 0 <= i < taken.len() ==> (#[trigger] lines@[i])@ == utf8_lossy(taken[i]),
            forall|i: int, c: u8|
                0 <= i < taken.len() && c < 128 ==> #[trigger] occurrences(encode_utf8(lines@[i]@), c)
                    == occurrences(taken[i], c),
            all_utf8 == forall|i: int| 0 <= i < taken.len() ==> valid_utf8(#[trigger] taken[i]),
        ensures
            lines@.len() == full.len(),
            forall|i: int| 0 <= i < full.len() ==> (#[trigger] lines@[i])@ == utf8_lossy(full[i]),
            forall|i: int, c: u8|
                0 <= i < full.len() && c < 128 ==> #[trigger] occurrences(encode_utf8(lines@[i]@), c)
                    == occurrences(full[i], c),
            all_utf8 == forall|i: int| 0 <= i < full.len() ==> valid_utf8(#[trigger] full[i]),
        decreases data@.len() - pos,
    {
        if pos >= data.len() {
            assert(full =~= taken);
            break;
        }
        // Find the end of the line.
        let mut i = pos;
        while i < data.len() && data[i] != 10
            invariant
                pos <= i <= data@.len(),
                line_end(data@, pos as int) == line_end(data@, i as int),
            decreases data@.len() - i,
        {
            i = i + 1;
        }
        let end = if i < data.len() {
            i + 1
        } else {
            i
        };
        proof {
            lemma_line_end_bounds(data@, pos as int);
        }
        assert(end == line_end(data@, pos as int));
        let last = data[end - 1];
        if last != 10 && last != 13 {
            assert(full =~= taken);
            break;
        }
        let too_many = match sample_size {
            SampleSize::Records(m) => n_records + 1 > m,
            SampleSize::Bytes(m) => end > m,
            SampleSize::All => false,
        };
        if too_many {
            assert(full =~= taken);
            break;
        }
        let (lo, hi) = trim_bounds(data, pos, end);
        let bytes = &data[lo..hi];
        let ghost line = trim_eol(data@.subrange(pos as int, end as int));
        assert(bytes@ == line);
        let text = decode_lossy(bytes);
        let valid = is_valid_utf8(bytes);
        lines.push(text);
        all_utf8 = all_utf8 && valid;
        proof {
            let old_taken = taken;
            taken = taken.push(line);
            assert(sample_from(data@, sample_size, pos as int, n_records as int) =~= seq![line]
                + sample_from(data@, sample_size, end as int, n_records + 1));
            assert(full =~= taken + sample_from(data@, sample_size, end as int, n_records + 1));
            assert forall|k: int| 0 <= k < taken.len() implies (#[trigger] lines@[k])@ == utf8_lossy(taken[k]) by {
                if k < old_taken.len() {
                    assert(taken[k] == old_taken[k]);
                }
            }
            assert forall|k: int, c: u8| 0 <= k < taken.len() && c < 128 implies #[trigger] occurrences(
                encode_utf8(lines@[k]@),
                c,
            ) == occurrences(taken[k], c) by {
                if k < old_taken.len() {
                    assert(taken[k] == old_taken[k]);
                } else {
                    assert(occurrences(encode_utf8(text@), c) == occurrences(bytes@, c));
                }
            }
            assert(all_utf8 == forall|k: int| 0 <= k < taken.len() ==> valid_utf8(#[trigger] taken[k])) by {
                if all_utf8 {
                    assert forall|k: int| 0 <= k < taken.len() implies valid_utf8(#[trigger] taken[k]) by {
                        if k < old_taken.len() {
                            assert(taken[k] == old_taken[k]);
                        }
                    }
                } else if !valid {
                    assert(!valid_utf8(taken[taken.len() - 1]));
                } else {
                    let k = choose|k: int| 0 <= k < old_taken.len() && !valid_utf8(#[trigger] old_taken[k]);
                    assert(taken[k] == old_taken[k]);
                }
            }
        }
        pos = end;
        n_records = n_records + 1;
    }
    (lines, all_utf8)
}

/// The number of bytes of all `lines` together.
pub open spec fn total_len(lines: Seq<Seq<u8>>) -> int
    decreases lines.len(),
{
    if lines.len() == 0 {
        0
    } else {
        lines[0].len() + total_len(lines.drop_first())
    }
}

proof fn lemma_trim_eol_len(s: Seq<u8>)
    ensures
        trim_eol(s).len() <= s.len(),
{
    lemma_lead_eol_bounds(s, 0);
    let lo = lead_eol(s, 0);
    lemma_trail_eol_bounds(s, lo, s.len() as int);
}

proof fn lemma_sample_from_within(data: Seq<u8>, size: SampleSize, pos: int, n_records: int)
    requires
        0 <= pos,
        0 <= n_records,
    ensures
        size matches SampleSize::Records(m) ==> (n_records <= m ==> n_records + sample_from(
            data,
            size,
            pos,
            n_records,
        ).len() <= m),
        size matches SampleSize::Bytes(m) ==> (pos <= m ==> pos + total_len(
            sample_from(data, size, pos, n_records),
        ) <= m),
    decreases data.len() - pos,
{
    if pos < data.len() {
        let end = line_end(data, pos);
        if end > pos && end <= data.len() && is_eol(data[end - 1]) && !exceeds(size, end, n_records + 1) {
            lemma_sample_from_within(data, size, end, n_records + 1);
            let line = trim_eol(data.subrange(pos, end));
            let rest = sample_from(data, size, end, n_records + 1);
            let all = sample_from(data, size, pos, n_records);
            assert(all == seq![line] + rest);
            assert(all.drop_first() =~= rest);
            lemma_trim_eol_len(data.subrange(pos, end));
        }
    }
}

/// A sample keeps within its size: at most `m` lines for `Records(m)`, and
/// at most `m` bytes of lines for `Bytes(m)`.
pub proof fn lemma_sample_within_size(data: Seq<u8>, size: SampleSize)
    ensures
        size matches SampleSize::Records(m) ==> sample_lines(data, size).len() <= m,
        size matches SampleSize::Bytes(m) ==> total_len(sample_lines(data, size)) <= m,
{
    lemma_sample_from_within(data, size, 0, 0);
}

/// The position just past the `k`-th `\n` at or after `pos`, or the end of
/// the data when there are fewer.
pub open spec fn nth_line_end(data: Seq<u8>, pos: int, k: nat) -> int
    decreases k,
{
    if k == 0 {
        pos
    } else if pos >= data.len() {
        data.len() as int
    } else {
        nth_line_end(data, line_end(data, pos), (k - 1) as nat)
    }
}

/// `data` cut right after its `n`-th `\n` (all of it when it has fewer).
pub open spec fn cut_after_lines(data: Seq<u8>, n: nat) -> Seq<u8> {
    data.take(nth_line_end(data, 0, n))
}

proof fn lemma_nth_line_end_bounds(data: Seq<u8>, pos: int, k: nat)
    requires
        0 <= pos <= data.len(),
    ensures
        pos <= nth_line_end(data, pos, k) <= data.len(),
    decreases k,
{
    if k > 0 && pos < data.len() {
        lemma_line_end_bounds(data, pos);
        lemma_nth_line_end_bounds(data, line_end(data, pos), (k - 1) as nat);
    }
}

proof fn lemma_line_end_prefix(data: Seq<u8>, q: int, pos: int)
    requires
        0 <= pos <= data.len(),
        line_end(data, pos) <= q <= data.len(),
    ensures
        line_end(data.take(q), pos) == line_end(data, pos),
    decreases data.len() - pos,
{
    if pos < data.len() {
        lemma_line_end_bounds(data, pos);
        if data[pos] != 10 {
            lemma_line_end_prefix(data, q, pos + 1);
        }
    } else {
        assert(data.take(q) =~= data);
    }
}

proof fn lemma_sample_from_records(data: Seq<u8>, m: usize, pos: int, r: int)
    requires
        0 <= pos <= data.len(),
        0 <= r <= m,
    ensures
        sample_from(data, SampleSize::Records(m), pos, r) == sample_from(
            data.take(nth_line_end(data, pos, (m - r) as nat)),
            SampleSize::All,
            pos,
            r,
        ),
    decreases data.len() - pos,
{
    let k = (m - r) as nat;
    let q = nth_line_end(data, pos, k);
    lemma_nth_line_end_bounds(data, pos, k);
    let d2 = data.take(q);
    if pos < data.len() && k > 0 {
        let e = line_end(data, pos);
        lemma_line_end_bounds(data, pos);
        lemma_nth_line_end_bounds(data, e, (k - 1) as nat);
        assert(q == nth_line_end(data, e, (k - 1) as nat));
        lemma_line_end_prefix(data, q, pos);
        assert(line_end(d2, pos) == e);
        assert(d2.subrange(pos, e) =~= data.subrange(pos, e));
        if e > pos && e <= data.len() && is_eol(data[e - 1]) {
            lemma_sample_from_records(data, m, e, r + 1);
            assert((m - (r + 1)) as nat == (k - 1) as nat);
        }
    }
}

/// A sample of at most `n` records is the sample of all records of the data
/// cut after its `n`-th `\n`.
pub proof fn lemma_sample_records(data: Seq<u8>, n: usize)
    ensures
        sample_lines(data, SampleSize::Records(n)) == sample_lines(cut_after_lines(data, n as nat), SampleSize::All),
{
    lemma_sample_from_records(data, n, 0, 0);
}

} // verus!
