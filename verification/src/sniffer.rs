//! The sniffer: infers the quote character and the delimiter of CSV data
//! from a sample of its first lines.
use vstd::prelude::*;
use vstd::utf8::*;

use crate::chain::{
    chain_outcome, less_cost, less_cost_spec, cost_view, Chain, STATE_STEADYFLEX,
    STATE_STEADYSTRICT, STATE_UNSTEADY,
};
use crate::error::{
    failure_message, msg_bad_pattern, msg_missing_dialect, msg_no_candidate, msg_no_steady_delimiter, msg_output_ends_full,
    msg_output_full, SnifferError,
};
use crate::fields::{count_byte, csv_counts, occurrences, quoted_field_counts, record_failure_message};
use crate::metadata::{Dialect, Metadata, Quote};
use crate::quote::{lemma_match_count_nonneg, quote_count, quote_outcome, quote_pattern, texts};
use crate::sample::{
    cut_after_lines, lemma_sample_records, sample_is_utf8, sample_lines, sample_text, take_sample_from_start,
    SampleSize,
};

verus! {

/// The state of a sniffer: what it was told and what it has inferred.
pub struct SnifferState {
    /// The delimiter, given or inferred.
    pub delimiter: Option<u8>,
    /// The quote character, given or inferred.
    pub quote: Option<Quote>,
    /// Whether records vary in length, once inferred.
    pub flexible: Option<bool>,
    /// Whether the sampled lines were well-formed UTF-8, once sniffed.
    pub is_utf8: Option<bool>,
    /// How often the delimiter occurs in a row, once inferred.
    pub delimiter_freq: Option<usize>,
    /// The sample size, if one was given.
    pub sample_size: Option<SampleSize>,
}

/// A CSV sniffer.
///
/// The sniffer examines a sample of CSV data and infers its dialect.  What it
/// is told (delimiter, quote, sample size) and what it infers are kept
/// between sniffs.
#[derive(Debug)]
pub struct Sniffer {
    delimiter: Option<u8>,
    quote: Option<Quote>,
    flexible: Option<bool>,
    is_utf8: Option<bool>,
    delimiter_freq: Option<usize>,
    sample_size: Option<SampleSize>,
}

impl View for Sniffer {
    type V = SnifferState;

    open spec fn view(&self) -> SnifferState {
        self.state()
    }
}

impl Sniffer {
    /// The state of the sniffer.
    pub closed spec fn state(&self) -> SnifferState {
        SnifferState {
            delimiter: self.delimiter,
            quote: self.quote,
            flexible: self.flexible,
            is_utf8: self.is_utf8,
            delimiter_freq: self.delimiter_freq,
            sample_size: self.sample_size,
        }
    }
}

/// A sniffer that was told nothing and has inferred nothing.
pub open spec fn empty_state() -> SnifferState {
    SnifferState {
        delimiter: None,
        quote: None,
        flexible: None,
        is_utf8: None,
        delimiter_freq: None,
        sample_size: None,
    }
}

/// The sample size that sniffing uses: the one given, else 4096 bytes.
pub open spec fn sample_size_of(st: SnifferState) -> SampleSize {
    match st.sample_size {
        Some(s) => s,
        None => SampleSize::Bytes(4096),
    }
}

// ---------------------------------------------------------------------------
// Inferring the quote character
// ---------------------------------------------------------------------------

/// The quote characters to try: the given one, else `'`, `"` and `` ` ``.
pub open spec fn quote_guesses(q: Option<Quote>) -> Seq<u8> {
    match q {
        Some(Quote::Quoted(c)) => seq![c],
        _ => seq![39u8, 34u8, 96u8],
    }
}

/// Trying the first `k` guesses in turn: the guess with the most quoted
/// cells so far (the first one on a tie), their number and the delimiter it
/// found; `(b'"', 0, 0)` before any cell is found.  An error of a guess ends
/// the search with its message.
pub open spec fn guess_fold(lines: Seq<Seq<char>>, guesses: Seq<u8>, delim: Option<u8>, k: int) -> Result<
    (u8, int, u8),
    Seq<char>,
>
    decreases k,
{
    if k <= 0 {
        Ok((34u8, 0int, 0u8))
    } else {
        match guess_fold(lines, guesses, delim, k - 1) {
            Err(m) => Err(m),
            Ok(acc) => match quote_outcome(lines, guesses[k - 1], delim) {
                Err(m) => Err(m),
                Ok(None) => Ok(acc),
                Ok(Some((c, d))) => if c > acc.1 {
                    Ok((guesses[k - 1], c, d))
                } else {
                    Ok(acc)
                },
            },
        }
    }
}

proof fn lemma_guess_fold_err_stays(lines: Seq<Seq<char>>, guesses: Seq<u8>, delim: Option<u8>, k: int, k2: int)
    requires
        k <= k2,
        guess_fold(lines, guesses, delim, k) is Err,
    ensures
        guess_fold(lines, guesses, delim, k2) == guess_fold(lines, guesses, delim, k),
    decreases k2 - k,
{
    if k < k2 {
        lemma_guess_fold_err_stays(lines, guesses, delim, k, k2 - 1);
    }
}

/// The state after inferring the quote character from `lines`, and whether
/// that succeeded.
///
/// Nothing changes when both quote and delimiter are known, or when the data
/// is known to be unquoted.  Otherwise each guess is tried; when none finds a
/// quoted cell the data is unquoted, else the best guess becomes the quote
/// and the delimiter it found becomes the delimiter.
pub open spec fn infer_quotes_spec(st: SnifferState, lines: Seq<Seq<char>>) -> (SnifferState, bool) {
    if st.quote is Some && st.delimiter is Some {
        (st, true)
    } else if st.quote == Some(Quote::Unquoted) {
        (st, true)
    } else {
        let g = quote_guesses(st.quote);
        match guess_fold(lines, g, st.delimiter, g.len() as int) {
            Err(_) => (st, false),
            Ok((q, c, d)) => if c == 0 {
                (SnifferState { quote: Some(Quote::Unquoted), ..st }, true)
            } else {
                (SnifferState { quote: Some(Quote::Quoted(q)), delimiter: Some(d), ..st }, true)
            },
        }
    }
}

/// The message with which inferring the quote character from `lines` fails:
/// that of the first guess whose counting fails.
pub open spec fn infer_quotes_error(st: SnifferState, lines: Seq<Seq<char>>) -> Seq<char> {
    let g = quote_guesses(st.quote);
    match guess_fold(lines, g, st.delimiter, g.len() as int) {
        Err(m) => m,
        Ok(_) => msg_no_candidate(),
    }
}

// ---------------------------------------------------------------------------
// Choosing the delimiter
// ---------------------------------------------------------------------------

/// How often `b` occurs in each line.
pub open spec fn freq_obs(lines: Seq<Seq<char>>, b: u8) -> Seq<usize> {
    Seq::new(lines.len(), |i: int| occurrences(encode_utf8(lines[i]), b) as usize)
}

/// One chain per ASCII byte, holding how often it occurs in each line.
pub open spec fn delim_chains(lines: Seq<Seq<char>>) -> Seq<Seq<usize>> {
    Seq::new(128, |c: int| freq_obs(lines, c as u8))
}

/// How often `b` occurs in each line of bytes, as read.
pub open spec fn byte_obs(raw: Seq<Seq<u8>>, b: u8) -> Seq<usize> {
    Seq::new(raw.len(), |i: int| occurrences(raw[i], b) as usize)
}

/// One chain per ASCII byte, holding how often it occurs in each line of
/// bytes, as read.  Decoding keeps ASCII bytes one for one, so these are the
/// chains of the decoded lines too.
pub open spec fn byte_chains(raw: Seq<Seq<u8>>) -> Seq<Seq<usize>> {
    Seq::new(128, |c: int| byte_obs(raw, c as u8))
}

/// Decoded lines that hold each ASCII byte as often as the lines they were
/// decoded from have the same chains.
proof fn lemma_decoded_chains(raw: Seq<Seq<u8>>, lines: Seq<Seq<char>>)
    requires
        raw.len() == lines.len(),
        forall|i: int, c: u8|
            0 <= i < lines.len() && c < 128 ==> #[trigger] occurrences(encode_utf8(lines[i]), c) == occurrences(
                raw[i],
                c,
            ),
    ensures
        delim_chains(lines) == byte_chains(raw),
        forall|d: u8| d < 128 ==> #[trigger] freq_obs(lines, d) == byte_obs(raw, d),
{
    assert forall|d: u8| d < 128 implies #[trigger] freq_obs(lines, d) == byte_obs(raw, d) by {
        assert forall|i: int| 0 <= i < lines.len() implies #[trigger] freq_obs(lines, d)[i] == byte_obs(raw, d)[i] by {
            assert(occurrences(encode_utf8(lines[i]), d) == occurrences(raw[i], d));
        }
        assert(freq_obs(lines, d) =~= byte_obs(raw, d));
    }
    assert forall|c: int| 0 <= c < 128 implies #[trigger] delim_chains(lines)[c] == byte_chains(raw)[c] by {
        assert(freq_obs(lines, c as u8) == byte_obs(raw, c as u8));
    }
    assert(delim_chains(lines) =~= byte_chains(raw));
}

/// Among the first `k` chains: the index (as a byte) of the best one, its
/// largest observation, its final state and the cost of that state.  A chain
/// is better when its final state is steadier, or equally steady and likelier;
/// the first wins a tie.  Before any chain: `(b',', 0, unsteady, impossible)`.
pub open spec fn select_chain(chains: Seq<Seq<usize>>, k: int) -> (u8, usize, int, Option<int>)
    decreases k,
{
    if k <= 0 {
        (44u8, 0usize, STATE_UNSTEADY as int, None)
    } else {
        let acc = select_chain(chains, k - 1);
        match chain_outcome(chains[k - 1]) {
            None => acc,
            Some((st, c, f)) => if st < acc.2 || (st == acc.2 && less_cost_spec(c, acc.3)) {
                ((k - 1) as u8, f, st, c)
            } else {
                acc
            },
        }
    }
}

/// Choosing among chains prefers steadiness, then likelihood: every chain
/// that has observations ends in a state no steadier than the chosen one, and
/// when it ends in as steady a state, it is no likelier.
pub proof fn lemma_select_chain_steadiest(chains: Seq<Seq<usize>>, i: int)
    requires
        0 <= i < chains.len(),
    ensures
        ({
            let (_, _, s, c) = select_chain(chains, chains.len() as int);
            chain_outcome(chains[i]) matches Some((st, ci, _)) ==> s <= st && (s == st ==> !less_cost_spec(
                ci,
                c,
            ))
        }),
{
    lemma_select_chain_prefix(chains, chains.len() as int, i);
}

proof fn lemma_select_chain_prefix(chains: Seq<Seq<usize>>, k: int, i: int)
    requires
        0 <= i < k <= chains.len(),
    ensures
        ({
            let (_, _, s, c) = select_chain(chains, k);
            chain_outcome(chains[i]) matches Some((st, ci, _)) ==> s <= st && (s == st ==> !less_cost_spec(
                ci,
                c,
            ))
        }),
    decreases k,
{
    if i < k - 1 {
        lemma_select_chain_prefix(chains, k - 1, i);
    }
    lemma_select_chain_monotone(chains, k - 1);
}

proof fn lemma_select_chain_monotone(chains: Seq<Seq<usize>>, k: int)
    requires
        0 <= k < chains.len(),
    ensures
        ({
            let (_, _, s0, c0) = select_chain(chains, k);
            let (_, _, s1, c1) = select_chain(chains, k + 1);
            s1 <= s0 && (s1 == s0 ==> !less_cost_spec(c0, c1))
        }),
{
}

/// Chain `j` is the one to choose among `chains`: it has observations, no
/// chain ends in a steadier state, none ending in as steady a state is
/// likelier, and every earlier chain ends in a less steady state or is less
/// likely (the first one wins a tie).
pub open spec fn best_chain_at(chains: Seq<Seq<usize>>, j: int) -> bool {
    &&& 0 <= j < chains.len()
    &&& match chain_outcome(chains[j]) {
        Some((s, c, _)) => {
            &&& forall|i: int|
                0 <= i < chains.len() ==> match #[trigger] chain_outcome(chains[i]) {
                    Some((si, ci, _)) => s < si || (s == si && !less_cost_spec(ci, c)),
                    None => true,
                }
            &&& forall|i: int|
                0 <= i < j ==> match #[trigger] chain_outcome(chains[i]) {
                    Some((si, ci, _)) => s < si || less_cost_spec(c, ci),
                    None => true,
                }
        },
        None => false,
    }
}

proof fn lemma_select_chain_first(chains: Seq<Seq<usize>>, k: int, i: int)
    requires
        0 <= i < k <= chains.len(),
        k <= 256,
    ensures
        ({
            let (d, _, s, c) = select_chain(chains, k);
            s < STATE_UNSTEADY && i < d ==> match chain_outcome(chains[i]) {
                Some((si, ci, _)) => s < si || less_cost_spec(c, ci),
                None => true,
            }
        }),
    decreases k,
{
    let acc = select_chain(chains, k - 1);
    lemma_select_chain_source(chains, k - 1);
    if acc.2 < STATE_UNSTEADY {
        let j = choose|j: int|
            0 <= j < k - 1 && acc.0 == j as u8 && #[trigger] chain_outcome(chains[j]) == Some(
                (acc.2, acc.3, acc.1),
            );
        assert(acc.0 as int == j);
    }
    if i < k - 1 {
        lemma_select_chain_first(chains, k - 1, i);
        lemma_select_chain_prefix(chains, k - 1, i);
    }
    assert(((k - 1) as u8) as int == k - 1);
}

/// The state after choosing among `chains`, and whether a steady chain was
/// found: its flexibility and largest observation are kept, and its index
/// becomes the delimiter unless one is known.
pub open spec fn run_chains_spec(st: SnifferState, chains: Seq<Seq<usize>>) -> (SnifferState, bool) {
    let (d, f, s, _) = select_chain(chains, chains.len() as int);
    if s == STATE_STEADYSTRICT || s == STATE_STEADYFLEX {
        (
            SnifferState {
                flexible: Some(s == STATE_STEADYFLEX),
                delimiter: if st.delimiter is None {
                    Some(d)
                } else {
                    st.delimiter
                },
                delimiter_freq: Some(f),
                ..st
            },
            true,
        )
    } else {
        (st, false)
    }
}

/// Choosing among at most 256 chains: it succeeds exactly when some chain
/// ends steady, and then the chosen chain is the one to choose
/// (`best_chain_at`): its flexibility and its largest observation are kept,
/// and its index becomes the delimiter unless one is known.  A failure
/// leaves the state unchanged.
pub proof fn lemma_run_chains_choice(st: SnifferState, chains: Seq<Seq<usize>>)
    requires
        chains.len() <= 256,
    ensures
        run_chains_spec(st, chains).1 == exists|i: int|
            0 <= i < chains.len() && (#[trigger] chain_outcome(chains[i]) matches Some((si, _, _)) && si
                < STATE_UNSTEADY),
        run_chains_spec(st, chains).1 ==> exists|j: int|
            #[trigger] best_chain_at(chains, j) && match chain_outcome(chains[j]) {
                Some((s, _, f)) => {
                    &&& s == STATE_STEADYSTRICT || s == STATE_STEADYFLEX
                    &&& run_chains_spec(st, chains).0 == (SnifferState {
                        flexible: Some(s == STATE_STEADYFLEX),
                        delimiter: if st.delimiter is None {
                            Some(j as u8)
                        } else {
                            st.delimiter
                        },
                        delimiter_freq: Some(f),
                        ..st
                    })
                },
                None => false,
            },
        !run_chains_spec(st, chains).1 ==> run_chains_spec(st, chains).0 == st,
{
    let n = chains.len() as int;
    let (d, f, s, c) = select_chain(chains, n);
    lemma_select_chain_source(chains, n);
    if s < STATE_UNSTEADY {
        let j = choose|j: int|
            0 <= j < n && d == j as u8 && #[trigger] chain_outcome(chains[j]) == Some((s, c, f));
        assert(d as int == j);
        assert forall|i: int| 0 <= i < n implies match #[trigger] chain_outcome(chains[i]) {
            Some((si, ci, _)) => s < si || (s == si && !less_cost_spec(ci, c)),
            None => true,
        } by {
            lemma_select_chain_prefix(chains, n, i);
        }
        assert forall|i: int| 0 <= i < j implies match #[trigger] chain_outcome(chains[i]) {
            Some((si, ci, _)) => s < si || less_cost_spec(c, ci),
            None => true,
        } by {
            lemma_select_chain_first(chains, n, i);
        }
        assert(best_chain_at(chains, j));
        assert(run_chains_spec(st, chains).1 == exists|i: int|
            0 <= i < chains.len() && (#[trigger] chain_outcome(chains[i]) matches Some((si, _, _)) && si
                < STATE_UNSTEADY)) by {
            if s == STATE_STEADYSTRICT || s == STATE_STEADYFLEX {
                assert(chain_outcome(chains[j]) matches Some((si, _, _)) && si < STATE_UNSTEADY);
            }
        }
    } else {
        assert forall|i: int| 0 <= i < n implies !(#[trigger] chain_outcome(chains[i]) matches Some((si, _, _))
            && si < STATE_UNSTEADY) by {
            lemma_select_chain_prefix(chains, n, i);
        }
    }
}

/// The state after checking a known delimiter against `lines`, and whether
/// that succeeded.  For quoted data the per-line counts of field boundaries
/// are those a CSV reader finds (`csv_counts`; a full buffer fails); for
/// unquoted data they are the occurrences of the delimiter.
pub open spec fn known_delim_spec(st: SnifferState, lines: Seq<Seq<char>>) -> (SnifferState, bool) {
    match (st.delimiter, st.quote) {
        (Some(d), Some(Quote::Quoted(c))) => match csv_counts(d, c, lines) {
            Ok(o) => run_chains_spec(st, seq![o]),
            Err(_) => (st, false),
        },
        (Some(d), Some(Quote::Unquoted)) => run_chains_spec(st, seq![freq_obs(lines, d)]),
        _ => (st, false),
    }
}

/// Checking a known delimiter against a sample whose lines are `raw` as read
/// and `lines` as decoded: `known_delim_spec`, with an ASCII delimiter of
/// unquoted data counted in the lines as read, where decoding keeps it one for
/// one.
pub open spec fn sample_known_delim_spec(st: SnifferState, raw: Seq<Seq<u8>>, lines: Seq<Seq<char>>) -> (
    SnifferState,
    bool,
) {
    match (st.delimiter, st.quote) {
        (Some(d), Some(Quote::Unquoted)) => if d < 128 {
            run_chains_spec(st, seq![byte_obs(raw, d)])
        } else {
            known_delim_spec(st, lines)
        },
        _ => known_delim_spec(st, lines),
    }
}

// ---------------------------------------------------------------------------
// Sniffing
// ---------------------------------------------------------------------------

/// The state after sniffing `data`, and the metadata found (`Err` when
/// sniffing failed).
pub open spec fn sniff_spec(st0: SnifferState, data: Seq<u8>) -> (SnifferState, Result<Metadata, ()>) {
    let size = sample_size_of(st0);
    let raw = sample_lines(data, size);
    let lines = sample_text(data, size);
    let (st1, ok1) = infer_quotes_spec(st0, lines);
    if !ok1 {
        (st1, Err(()))
    } else {
        let (st2, ok2) = if st1.delimiter is Some {
            sample_known_delim_spec(st1, raw, lines)
        } else {
            run_chains_spec(st1, byte_chains(raw))
        };
        if !ok2 {
            (st2, Err(()))
        } else {
            let st3 = SnifferState { is_utf8: Some(sample_is_utf8(data, size)), ..st2 };
            (
                st3,
                Ok(
                    Metadata {
                        dialect: Dialect { delimiter: st3.delimiter.unwrap(), quote: st3.quote.unwrap() },
                    },
                ),
            )
        }
    }
}

/// The message with which checking a known delimiter against `lines` fails.
pub open spec fn known_delim_failure(st: SnifferState, lines: Seq<Seq<char>>, m: Option<Seq<char>>) -> bool {
    match (st.delimiter, st.quote) {
        (Some(d), Some(Quote::Quoted(c))) => match csv_counts(d, c, lines) {
            Ok(_) => m == Some(msg_no_steady_delimiter()),
            Err(o) => m == Some(record_failure_message(o)),
        },
        (Some(_), Some(Quote::Unquoted)) => m == Some(msg_no_steady_delimiter()),
        _ => m == Some(msg_missing_dialect()),
    }
}

/// The message with which sniffing `data` from state `st0` fails: that of
/// inferring the quote character (a pattern that does not compile, or no
/// candidate delimiter after quoted cells), else the failure of checking a
/// known delimiter, else no steady delimiter.
pub open spec fn sniff_failure(st0: SnifferState, data: Seq<u8>, m: Option<Seq<char>>) -> bool {
    let lines = sample_text(data, sample_size_of(st0));
    let (st1, ok1) = infer_quotes_spec(st0, lines);
    if !ok1 {
        m == Some(infer_quotes_error(st0, lines))
    } else if st1.delimiter is Some {
        known_delim_failure(st1, lines, m)
    } else {
        m == Some(msg_no_steady_delimiter())
    }
}

/// The view of a sniffing result.
pub open spec fn result_view(res: Result<Metadata, SnifferError>) -> Result<Metadata, ()> {
    match res {
        Ok(m) => Ok(m),
        Err(_) => Err(()),
    }
}

impl Sniffer {
    /// Creates a sniffer that was told nothing.
    pub fn new() -> (s: Sniffer)
        ensures
            s@ == empty_state(),
    {
        Sniffer {
            delimiter: None,
            quote: None,
            flexible: None,
            is_utf8: None,
            delimiter_freq: None,
            sample_size: None,
        }
    }

    /// Specifies the delimiter.
    pub fn delimiter(&mut self, delimiter: u8) -> (r: &mut Self)
        ensures
            r@ == (SnifferState { delimiter: Some(delimiter), ..old(self)@ }),
            final(self)@ == final(r)@,
    {
        self.delimiter = Some(delimiter);
        self
    }

    /// Specifies the quote character (if any).
    pub fn quote(&mut self, quote: Quote) -> (r: &mut Self)
        ensures
            r@ == (SnifferState { quote: Some(quote), ..old(self)@ }),
            final(self)@ == final(r)@,
    {
        self.quote = Some(quote);
        self
    }

    /// The size of the sample to examine while sniffing.
    ///
    /// The sample size defaults to `SampleSize::Bytes(4096)`.
    pub fn sample_size(&mut self, sample_size: SampleSize) -> (r: &mut Self)
        ensures
            r@ == (SnifferState { sample_size: Some(sample_size), ..old(self)@ }),
            final(self)@ == final(r)@,
    {
        self.sample_size = Some(sample_size);
        self
    }

    /// The sample size in use.
    pub fn get_sample_size(&self) -> (s: SampleSize)
        ensures
            s == sample_size_of(self@),
    {
        match self.sample_size {
            Some(s) => s,
            None => SampleSize::Bytes(4096),
        }
    }
}

impl Sniffer {
    /// Infers the quote character, and with it the delimiter, from quoted
    /// (or possibly quoted) data.  Only `'`, `"` and `` ` `` are guessed.
    fn infer_quotes_delim(&mut self, lines: &Vec<String>) -> (res: Result<(), SnifferError>)
        ensures
            (final(self)@, res is Ok) == infer_quotes_spec(old(self)@, texts(lines@)),
            res matches Err(e) ==> failure_message(e) == Some(infer_quotes_error(old(self)@, texts(lines@))),
            old(self)@.delimiter is None ==> (final(self)@.delimiter matches Some(d) ==> d < 128),
    {
        if self.quote.is_some() && self.delimiter.is_some() {
            return Ok(());
        }
        let guesses: Vec<u8> = match self.quote {
            Some(Quote::Quoted(chr)) => vec![chr],
            Some(Quote::Unquoted) => {
                return Ok(());
            },
            None => vec![39u8, 34u8, 96u8],
        };
        let ghost ls = texts(lines@);
        let ghost g = quote_guesses(self@.quote);
        assert(guesses@ =~= g);
        let delim = self.delimiter;
        let mut best_quote: u8 = 34;
        let mut best_count: u128 = 0;
        let mut best_delim: u8 = 0;
        let mut k: usize = 0;
        while k < guesses.len()
            invariant
                k <= guesses@.len(),
                guesses@ == g,
                g == quote_guesses(self@.quote),
                delim == self@.delimiter,
                ls == texts(lines@),
                !(self@.quote is Some && self@.delimiter is Some),
                self@.quote != Some(Quote::Unquoted),
                guess_fold(ls, g, delim, k as int) == Ok::<(u8, int, u8), Seq<char>>(
                    (best_quote, best_count as int, best_delim),
                ),
                delim is None ==> best_delim < 128,
            decreases guesses@.len() - k,
        {
            let chr = guesses[k];
            match quote_count(lines, chr, delim) {
                Err(e) => {
                    proof {
                        lemma_guess_fold_err_stays(ls, g, delim, k + 1, g.len() as int);
                    }
                    return Err(e);
                },
                Ok(None) => {},
                Ok(Some((cnt, delim_chr))) => {
                    if cnt > best_count {
                        best_quote = chr;
                        best_count = cnt;
                        best_delim = delim_chr;
                    }
                },
            }
            k = k + 1;
        }
        if best_count == 0 {
            self.quote = Some(Quote::Unquoted);
        } else {
            self.quote = Some(Quote::Quoted(best_quote));
            self.delimiter = Some(best_delim);
        }
        Ok(())
    }

    /// Chooses among `chains` the one whose decoded path ends steadiest (and,
    /// among equally steady ones, likeliest), and keeps its flexibility and
    /// frequency; its index becomes the delimiter unless one is known.  Fails
    /// with "unable to find valid delimiter" when no chain ends steady.
    pub fn run_chains(&mut self, chains: Vec<Chain>) -> (res: Result<(), SnifferError>)
        ensures
            (final(self)@, res is Ok) == run_chains_spec(old(self)@, chains@.map_values(|c: Chain| c@)),
            res matches Err(e) ==> failure_message(e) == Some(msg_no_steady_delimiter()),
    {
        broadcast use vstd::string::to_string_from_display_ensures_for_str;

        let ghost cs = chains@.map_values(|c: Chain| c@);
        let mut best_delim: u8 = 44;
        let mut delim_freq: usize = 0;
        let mut best_state: usize = STATE_UNSTEADY;
        let mut best_cost: Option<u128> = None;
        let mut i: usize = 0;
        while i < chains.len()
            invariant
                i <= chains@.len(),
                cs == chains@.map_values(|c: Chain| c@),
                select_chain(cs, i as int) == (best_delim, delim_freq, best_state as int, cost_view(best_cost)),
            decreases chains@.len() - i,
        {
            proof {
                assert(cs[i as int] == chains@[i as int]@);
            }
            match chains[i].final_outcome() {
                None => {},
                Some((final_state, final_cost, max_delim_freq)) => {
                    if final_state < best_state || (final_state == best_state && less_cost(
                        final_cost,
                        best_cost,
                    )) {
                        best_delim = i as u8;
                        delim_freq = max_delim_freq;
                        best_state = final_state;
                        best_cost = final_cost;
                    }
                },
            }
            i = i + 1;
        }
        if best_state == STATE_STEADYSTRICT {
            self.flexible = Some(false);
        } else if best_state == STATE_STEADYFLEX {
            self.flexible = Some(true);
        } else {
            return Err(SnifferError::SniffingFailed("unable to find valid delimiter".to_string()));
        }
        if self.delimiter.is_none() {
            self.delimiter = Some(best_delim);
        }
        self.delimiter_freq = Some(delim_freq);
        Ok(())
    }
}

/// How often each ASCII byte occurs in `bytes`.
fn ascii_freqs(bytes: &[u8]) -> (freqs: Vec<usize>)
    ensures
        freqs@.len() == 128,
        forall|c: int| 0 <= c < 128 ==> #[trigger] freqs@[c] == occurrences(bytes@, c as u8),
{
    let mut freqs: Vec<usize> = Vec::new();
    let mut c: usize = 0;
    while c < 128
        invariant
            c <= 128,
            freqs@.len() == c,
            forall|k: int| 0 <= k < c ==> #[trigger] freqs@[k] == 0,
        decreases 128 - c,
    {
        freqs.push(0);
        c = c + 1;
    }
    let mut j: usize = 0;
    while j < bytes.len()
        invariant
            j <= bytes@.len(),
            freqs@.len() == 128,
            forall|k: int| 0 <= k < 128 ==> #[trigger] freqs@[k] == occurrences(bytes@.take(j as int), k as u8),
            forall|k: int| 0 <= k < 128 ==> #[trigger] freqs@[k] <= j,
        decreases bytes@.len() - j,
    {
        let b = bytes[j];
        proof {
            assert(bytes@.take(j + 1).drop_last() =~= bytes@.take(j as int));
            assert(bytes@.take(j + 1).last() == b);
        }
        if b < 128 {
            let f = freqs[b as usize];
            freqs.set(b as usize, f + 1);
        }
        proof {
            assert forall|k: int| 0 <= k < 128 implies #[trigger] freqs@[k] == occurrences(
                bytes@.take(j + 1),
                k as u8,
            ) by {
                assert(occurrences(bytes@.take(j + 1), k as u8) == occurrences(bytes@.take(j as int), k as u8)
                    + if b == k as u8 {
                    1nat
                } else {
                    0
                });
            }
        }
        j = j + 1;
    }
    assert(bytes@.take(bytes@.len() as int) =~= bytes@);
    freqs
}

impl Sniffer {
    /// Infers the delimiter from how steadily each ASCII byte occurs per line,
    /// and with it the flexibility and the delimiter frequency.
    fn infer_delim_preamble(&mut self, lines: &Vec<String>) -> (res: Result<(), SnifferError>)
        ensures
            (final(self)@, res is Ok) == run_chains_spec(old(self)@, delim_chains(texts(lines@))),
            res matches Err(e) ==> failure_message(e) == Some(msg_no_steady_delimiter()),
    {
        let ghost ls = texts(lines@);
        let mut rows: Vec<Vec<usize>> = Vec::new();
        let mut i: usize = 0;
        while i < lines.len()
            invariant
                i <= lines@.len(),
                ls == texts(lines@),
                rows@.len() == i,
                forall|r: int| 0 <= r < i ==> (#[trigger] rows@[r])@.len() == 128,
                forall|r: int, c: int|
                    0 <= r < i && 0 <= c < 128 ==> #[trigger] rows@[r]@[c] == occurrences(
                        encode_utf8(ls[r]),
                        c as u8,
                    ),
            decreases lines@.len() - i,
        {
            let bytes = lines[i].as_str().as_bytes();
            let freqs = ascii_freqs(bytes);
            rows.push(freqs);
            i = i + 1;
        }
        let mut chains: Vec<Chain> = Vec::new();
        let mut c: usize = 0;
        while c < 128
            invariant
                c <= 128,
                ls == texts(lines@),
                rows@.len() == lines@.len(),
                forall|r: int| 0 <= r < rows@.len() ==> (#[trigger] rows@[r])@.len() == 128,
                forall|r: int, c2: int|
                    0 <= r < rows@.len() && 0 <= c2 < 128 ==> #[trigger] rows@[r]@[c2] == occurrences(
                        encode_utf8(ls[r]),
                        c2 as u8,
                    ),
                chains@.len() == c,
                forall|k: int| 0 <= k < c ==> (#[trigger] chains@[k])@ == freq_obs(ls, k as u8),
            decreases 128 - c,
        {
            let mut chain = Chain::new();
            let mut r: usize = 0;
            while r < rows.len()
                invariant
                    c < 128,
                    r <= rows@.len(),
                    rows@.len() == lines@.len(),
                    ls == texts(lines@),
                    forall|r2: int| 0 <= r2 < rows@.len() ==> (#[trigger] rows@[r2])@.len() == 128,
                    forall|r2: int, c2: int|
                        0 <= r2 < rows@.len() && 0 <= c2 < 128 ==> #[trigger] rows@[r2]@[c2] == occurrences(
                            encode_utf8(ls[r2]),
                            c2 as u8,
                        ),
                    chain@ =~= freq_obs(ls, c as u8).take(r as int),
                decreases rows@.len() - r,
            {
                proof {
                    assert(rows@[r as int]@.len() == 128);
                }
                chain.add_observation(rows[r][c]);
                r = r + 1;
            }
            assert(freq_obs(ls, c as u8).take(rows@.len() as int) =~= freq_obs(ls, c as u8));
            chains.push(chain);
            c = c + 1;
        }
        assert(chains@.map_values(|ch: Chain| ch@) =~= delim_chains(ls));
        self.run_chains(chains)
    }

    /// With the delimiter known, checks how steadily it occurs per line (as
    /// field boundaries of a CSV reader when the data is quoted), and infers
    /// the flexibility and the delimiter frequency.  Fails with
    /// "infer_preamble_known_delim called without delimiter and quote" when
    /// either is unknown.
    fn infer_preamble_known_delim(&mut self, lines: &Vec<String>) -> (res: Result<(), SnifferError>)
        ensures
            (final(self)@, res is Ok) == known_delim_spec(old(self)@, texts(lines@)),
            res matches Err(e) ==> known_delim_failure(old(self)@, texts(lines@), failure_message(e)),
    {
        let ghost ls = texts(lines@);
        let ghost st0 = self@;
        let (delim, quote) = match (self.delimiter, self.quote) {
            (Some(d), Some(q)) => (d, q),
            _ => {
                assert(known_delim_spec(st0, ls) == (st0, false));
                return Err(
                    SnifferError::SniffingFailed(
                        "infer_preamble_known_delim called without delimiter and quote".to_string(),
                    ),
                );
            },
        };
        let mut chain = Chain::new();
        match quote {
            Quote::Quoted(character) => {
                let counts = match quoted_field_counts(lines, delim, character) {
                    Ok(counts) => counts,
                    Err(e) => {
                        assert(known_delim_spec(st0, ls) == (st0, false));
                        return Err(e);
                    },
                };
                let mut i: usize = 0;
                while i < counts.len()
                    invariant
                        i <= counts@.len(),
                        chain@ =~= counts@.take(i as int),
                    decreases counts@.len() - i,
                {
                    chain.add_observation(counts[i]);
                    i = i + 1;
                }
                assert(counts@.take(counts@.len() as int) =~= counts@);
            },
            Quote::Unquoted => {
                let mut i: usize = 0;
                while i < lines.len()
                    invariant
                        i <= lines@.len(),
                        ls == texts(lines@),
                        chain@ =~= freq_obs(ls, delim).take(i as int),
                    decreases lines@.len() - i,
                {
                    let n = count_byte(lines[i].as_str().as_bytes(), delim);
                    chain.add_observation(n);
                    i = i + 1;
                }
                assert(freq_obs(ls, delim).take(lines@.len() as int) =~= freq_obs(ls, delim));
            },
        }
        let ghost obs = chain@;
        let mut chains: Vec<Chain> = Vec::new();
        chains.push(chain);
        assert(chains@.map_values(|ch: Chain| ch@) =~= seq![obs]);
        let res = self.run_chains(chains);
        assert(known_delim_spec(st0, ls) == (self@, res is Ok));
        res
    }

    /// Sniffs CSV data and returns the metadata found.
    ///
    /// Takes the sample from the start of `data`, infers the quote character
    /// (and with it, possibly, the delimiter), then the delimiter if still
    /// unknown, whether records vary in length and how often the delimiter
    /// occurs per row.  The inferred values are kept in the sniffer.
    ///
    /// Fails when the data does not allow the dialect to be inferred, and
    /// when the regular expression of a quoted cell does not compile (a given
    /// delimiter such as `(` can make it invalid).
    pub fn sniff_reader(&mut self, data: &[u8]) -> (res: Result<Metadata, SnifferError>)
        ensures
            (final(self)@, result_view(res)) == sniff_spec(old(self)@, data@),
            res matches Err(e) ==> sniff_failure(old(self)@, data@, failure_message(e)),
            old(self)@.delimiter is None ==> (res matches Ok(m) ==> m.dialect.delimiter < 128),
    {
        let ghost st0 = self@;
        let ghost size = sample_size_of(st0);
        let (lines, is_utf8) = take_sample_from_start(data, self.get_sample_size());
        let ghost ls = texts(lines@);
        assert(ls =~= sample_text(data@, size));
        match self.infer_quotes_delim(&lines) {
            Err(e) => {
                assert(sniff_spec(st0, data@) == (self@, result_view(Err::<Metadata, SnifferError>(e))));
                return Err(e);
            },
            Ok(()) => {},
        }
        let ghost st1 = self@;
        proof {
            lemma_decoded_chains(sample_lines(data@, size), ls);
        }
        let step = if self.delimiter.is_some() {
            self.infer_preamble_known_delim(&lines)
        } else {
            self.infer_delim_preamble(&lines)
        };
        match step {
            Err(e) => {
                assert(sniff_spec(st0, data@) == (self@, result_view(Err::<Metadata, SnifferError>(e))));
                return Err(e);
            },
            Ok(()) => {},
        }
        self.is_utf8 = Some(is_utf8);
        match (self.delimiter, self.quote) {
            (Some(d), Some(q)) => {
                let m = Metadata { dialect: Dialect { delimiter: d, quote: q } };
                assert(sniff_spec(st0, data@) == (self@, result_view(Ok::<Metadata, SnifferError>(m))));
                proof {
                    if st0.delimiter is None && st1.delimiter is None {
                        lemma_select_chain_index(byte_chains(sample_lines(data@, size)), 128);
                    }
                }
                Ok(m)
            },
            _ => Err(SnifferError::SniffingFailed("Failed to infer all metadata".to_string())),
        }
    }

}

impl Default for Sniffer {
    /// A sniffer that was told nothing.
    fn default() -> (s: Sniffer)
        ensures
            s@ == empty_state(),
    {
        Sniffer::new()
    }
}

proof fn lemma_guess_fold_keeps_delim(
    lines: Seq<Seq<char>>,
    guesses: Seq<u8>,
    d0: u8,
    k: int,
)
    ensures
        guess_fold(lines, guesses, Some(d0), k) matches Ok((q, c, d)) ==> (c != 0 ==> d == d0),
    decreases k,
{
    if k > 0 {
        lemma_guess_fold_keeps_delim(lines, guesses, d0, k - 1);
    }
}

proof fn lemma_guess_fold_picks_a_guess(lines: Seq<Seq<char>>, guesses: Seq<u8>, delim: Option<u8>, k: int)
    requires
        k <= guesses.len(),
    ensures
        guess_fold(lines, guesses, delim, k) matches Ok((q, c, d)) ==> (c != 0 ==> exists|i: int|
            0 <= i < k && guesses[i] == q),
    decreases k,
{
    if k > 0 {
        lemma_guess_fold_picks_a_guess(lines, guesses, delim, k - 1);
        if let Ok((q, c, d)) = guess_fold(lines, guesses, delim, k) {
            if c != 0 {
                if let Ok(acc) = guess_fold(lines, guesses, delim, k - 1) {
                    if q == guesses[k - 1] {
                        assert(guesses[k - 1] == q);
                    } else {
                        let i = choose|i: int| 0 <= i < k - 1 && guesses[i] == q;
                        assert(0 <= i < k && guesses[i] == q);
                    }
                }
            }
        }
    }
}

proof fn lemma_sniff_spec_given(st0: SnifferState, data: Seq<u8>)
    ensures
        sniff_spec(st0, data).1 matches Ok(m) ==> {
            &&& st0.delimiter matches Some(d) ==> m.dialect.delimiter == d
            &&& st0.quote matches Some(q) ==> (m.dialect.quote == q || (st0.delimiter is None
                && q is Quoted && m.dialect.quote == Quote::Unquoted))
            &&& sniff_spec(st0, data).0.delimiter == Some(m.dialect.delimiter)
            &&& sniff_spec(st0, data).0.quote == Some(m.dialect.quote)
            &&& sniff_spec(st0, data).0.flexible is Some
            &&& sniff_spec(st0, data).0.is_utf8 is Some
            &&& sniff_spec(st0, data).0.delimiter_freq is Some
        },
{
    let lines = sample_text(data, sample_size_of(st0));
    let g = quote_guesses(st0.quote);
    if let Some(d0) = st0.delimiter {
        lemma_guess_fold_keeps_delim(lines, g, d0, g.len() as int);
    }
    lemma_guess_fold_picks_a_guess(lines, g, st0.delimiter, g.len() as int);
    let (st1, ok1) = infer_quotes_spec(st0, lines);
    if ok1 {
        assert(st1.quote is Some);
        assert((st0.delimiter is Some ==> st1.delimiter == st0.delimiter) && (st0.quote matches Some(q) ==> (
        st1.quote == Some(q) || (st0.delimiter is None && q is Quoted && st1.quote == Some(Quote::Unquoted)))))
            by {
            if let Some(d0) = st0.delimiter {
                lemma_guess_fold_keeps_delim(lines, g, d0, g.len() as int);
            }
            lemma_guess_fold_picks_a_guess(lines, g, st0.delimiter, g.len() as int);
            if st0.quote is Some && st0.delimiter is Some {
                assert(st1 == st0);
            } else if st0.quote == Some(Quote::Unquoted) {
                assert(st1 == st0);
            } else {
                match guess_fold(lines, g, st0.delimiter, g.len() as int) {
                    Ok((q, c, d)) => {
                        if c == 0 {
                            assert(st1.delimiter == st0.delimiter);
                            assert(st1.quote == Some(Quote::Unquoted));
                        } else {
                            assert(st1.quote == Some(Quote::Quoted(q)));
                            assert(st1.delimiter == Some(d));
                            if let Some(d0) = st0.delimiter {
                                assert(d == d0);
                            }
                            if let Some(Quote::Quoted(c0)) = st0.quote {
                                assert(g == seq![c0]);
                                let i = choose|i: int| 0 <= i < g.len() && g[i] == q;
                                assert(i == 0);
                                assert(q == c0);
                            }
                        }
                    },
                    Err(_) => {
                        assert(!ok1);
                    },
                }
            }
        }
        let raw = sample_lines(data, sample_size_of(st0));
        let (st2, ok2) = if st1.delimiter is Some {
            sample_known_delim_spec(st1, raw, lines)
        } else {
            run_chains_spec(st1, byte_chains(raw))
        };
        if ok2 {
            assert(st2.quote == st1.quote);
            assert(st2.delimiter is Some);
            assert(st1.delimiter is Some ==> st2.delimiter == st1.delimiter);
            assert(st2.flexible is Some && st2.delimiter_freq is Some);
        }
    }
}

/// What a successful sniff leaves in the sniffer: the delimiter and the quote
/// of the metadata, and the flexibility, the UTF-8 flag and the delimiter
/// frequency, all known.
pub proof fn lemma_sniff_fills_state(st0: SnifferState, data: Seq<u8>, m: Metadata)
    requires
        sniff_spec(st0, data).1 == Ok::<Metadata, ()>(m),
    ensures
        sniff_spec(st0, data).0.delimiter == Some(m.dialect.delimiter),
        sniff_spec(st0, data).0.quote == Some(m.dialect.quote),
        sniff_spec(st0, data).0.flexible is Some,
        sniff_spec(st0, data).0.is_utf8 is Some,
        sniff_spec(st0, data).0.delimiter_freq is Some,
{
    lemma_sniff_spec_given(st0, data);
}

/// A delimiter given to the sniffer is the delimiter it reports.  A given
/// quote is the quote it reports, except when no delimiter was given and no
/// cell quoted with it is found: the data is then reported as unquoted.
pub proof fn lemma_given_dialect_kept(st0: SnifferState, data: Seq<u8>, m: Metadata)
    requires
        sniff_spec(st0, data).1 == Ok::<Metadata, ()>(m),
    ensures
        st0.delimiter matches Some(d) ==> m.dialect.delimiter == d,
        st0.quote matches Some(q) ==> (m.dialect.quote == q || (st0.delimiter is None && q is Quoted
            && m.dialect.quote == Quote::Unquoted)),
{
    lemma_sniff_spec_given(st0, data);
}

/// When no quote was given, an inferred quote character is one of the
/// guesses: `'`, `"` or `` ` ``.
pub proof fn lemma_inferred_quote_is_a_guess(st0: SnifferState, data: Seq<u8>, m: Metadata)
    requires
        sniff_spec(st0, data).1 == Ok::<Metadata, ()>(m),
        st0.quote is None,
    ensures
        m.dialect.quote matches Quote::Quoted(c) ==> (c == 39u8 || c == 34u8 || c == 96u8),
{
    lemma_sniff_spec_given(st0, data);
    let lines = sample_text(data, sample_size_of(st0));
    let g = quote_guesses(st0.quote);
    lemma_guess_fold_picks_a_guess(lines, g, st0.delimiter, g.len() as int);
    if let Ok((q, c, d)) = guess_fold(lines, g, st0.delimiter, g.len() as int) {
        if c != 0 {
            let i = choose|i: int| 0 <= i < g.len() && g[i] == q;
            assert(g[i] == 39u8 || g[i] == 34u8 || g[i] == 96u8);
        }
    }
}

proof fn lemma_infer_quotes_frame(s1: SnifferState, s2: SnifferState, lines: Seq<Seq<char>>)
    requires
        s1.delimiter == s2.delimiter,
        s1.quote == s2.quote,
    ensures
        infer_quotes_spec(s1, lines).1 == infer_quotes_spec(s2, lines).1,
        infer_quotes_spec(s1, lines).0 == (SnifferState {
            delimiter: infer_quotes_spec(s2, lines).0.delimiter,
            quote: infer_quotes_spec(s2, lines).0.quote,
            ..s1
        }),
{
}

proof fn lemma_run_chains_frame(s1: SnifferState, s2: SnifferState, chains: Seq<Seq<usize>>)
    requires
        s1.delimiter == s2.delimiter,
    ensures
        run_chains_spec(s1, chains).1 == run_chains_spec(s2, chains).1,
        run_chains_spec(s1, chains).1 ==> run_chains_spec(s1, chains).0 == (SnifferState {
            delimiter: run_chains_spec(s2, chains).0.delimiter,
            flexible: run_chains_spec(s2, chains).0.flexible,
            delimiter_freq: run_chains_spec(s2, chains).0.delimiter_freq,
            ..s1
        }),
{
}

proof fn lemma_known_delim_frame(s1: SnifferState, s2: SnifferState, lines: Seq<Seq<char>>)
    requires
        s1.delimiter == s2.delimiter,
        s1.quote == s2.quote,
    ensures
        known_delim_spec(s1, lines).1 == known_delim_spec(s2, lines).1,
        known_delim_spec(s1, lines).1 ==> known_delim_spec(s1, lines).0 == (SnifferState {
            delimiter: known_delim_spec(s2, lines).0.delimiter,
            flexible: known_delim_spec(s2, lines).0.flexible,
            delimiter_freq: known_delim_spec(s2, lines).0.delimiter_freq,
            ..s1
        }),
{
    match (s1.delimiter, s1.quote) {
        (Some(d), Some(Quote::Quoted(c))) => {
            if let Ok(o) = csv_counts(d, c, lines) {
                lemma_run_chains_frame(s1, s2, seq![o]);
            }
        },
        (Some(d), Some(Quote::Unquoted)) => {
            lemma_run_chains_frame(s1, s2, seq![freq_obs(lines, d)]);
        },
        _ => {},
    }
}

proof fn lemma_sample_known_frame(s1: SnifferState, s2: SnifferState, raw: Seq<Seq<u8>>, lines: Seq<Seq<char>>)
    requires
        s1.delimiter == s2.delimiter,
        s1.quote == s2.quote,
    ensures
        sample_known_delim_spec(s1, raw, lines).1 == sample_known_delim_spec(s2, raw, lines).1,
        sample_known_delim_spec(s1, raw, lines).1 ==> sample_known_delim_spec(s1, raw, lines).0 == (SnifferState {
            delimiter: sample_known_delim_spec(s2, raw, lines).0.delimiter,
            flexible: sample_known_delim_spec(s2, raw, lines).0.flexible,
            delimiter_freq: sample_known_delim_spec(s2, raw, lines).0.delimiter_freq,
            ..s1
        }),
{
    lemma_known_delim_frame(s1, s2, lines);
    if let (Some(d), Some(Quote::Unquoted)) = (s1.delimiter, s1.quote) {
        lemma_run_chains_frame(s1, s2, seq![byte_obs(raw, d)]);
    }
}

/// Sniffing depends on the sampled lines and on the delimiter and quote
/// given, and on nothing else of the state: from two states that agree on
/// those, with samples of equal lines (and so equally well-formed), the
/// results are equal, and a success leaves states that differ at most in
/// the sample size.
proof fn lemma_sniff_frame(s1: SnifferState, d1: Seq<u8>, s2: SnifferState, d2: Seq<u8>)
    requires
        s1.delimiter == s2.delimiter,
        s1.quote == s2.quote,
        sample_lines(d1, sample_size_of(s1)) == sample_lines(d2, sample_size_of(s2)),
    ensures
        sniff_spec(s1, d1).1 == sniff_spec(s2, d2).1,
        sniff_spec(s1, d1).1 is Ok ==> sniff_spec(s1, d1).0 == (SnifferState {
            sample_size: s1.sample_size,
            ..sniff_spec(s2, d2).0
        }),
{
    let raw = sample_lines(d1, sample_size_of(s1));
    let lines = sample_text(d1, sample_size_of(s1));
    assert(sample_text(d2, sample_size_of(s2)) == lines);
    assert(sample_is_utf8(d1, sample_size_of(s1)) == sample_is_utf8(d2, sample_size_of(s2)));
    lemma_infer_quotes_frame(s1, s2, lines);
    let (a1, ok1) = infer_quotes_spec(s1, lines);
    let (a2, ok2) = infer_quotes_spec(s2, lines);
    if ok1 {
        if a1.delimiter is Some {
            lemma_sample_known_frame(a1, a2, raw, lines);
        } else {
            lemma_run_chains_frame(a1, a2, byte_chains(raw));
        }
    }
}

/// Sniffing is deterministic: two sniffers told the same delimiter, quote
/// and sample size give the same result for the same data (ties between
/// candidates never depend on the order in which they were seen), and after
/// a success they hold the same state.
pub proof fn lemma_sniff_deterministic(s1: SnifferState, s2: SnifferState, data: Seq<u8>)
    requires
        s1.delimiter == s2.delimiter,
        s1.quote == s2.quote,
        s1.sample_size == s2.sample_size,
    ensures
        sniff_spec(s1, data).1 == sniff_spec(s2, data).1,
        sniff_spec(s1, data).1 is Ok ==> sniff_spec(s1, data).0 == sniff_spec(s2, data).0,
{
    lemma_sniff_frame(s1, data, s2, data);
}

/// A sample of at most `n` records examines the first `n` lines only:
/// sniffing with `SampleSize::Records(n)` gives the result that sniffing the
/// data cut after its `n`-th `\n` gives with `SampleSize::All`, and after a
/// success the states differ only in the sample size.
pub proof fn lemma_sniff_records(st: SnifferState, data: Seq<u8>, n: usize)
    ensures
        ({
            let s1 = SnifferState { sample_size: Some(SampleSize::Records(n)), ..st };
            let s2 = SnifferState { sample_size: Some(SampleSize::All), ..st };
            &&& sniff_spec(s1, data).1 == sniff_spec(s2, cut_after_lines(data, n as nat)).1
            &&& sniff_spec(s1, data).1 is Ok ==> sniff_spec(s1, data).0 == (SnifferState {
                sample_size: Some(SampleSize::Records(n)),
                ..sniff_spec(s2, cut_after_lines(data, n as nat)).0
            })
        }),
{
    let s1 = SnifferState { sample_size: Some(SampleSize::Records(n)), ..st };
    let s2 = SnifferState { sample_size: Some(SampleSize::All), ..st };
    lemma_sample_records(data, n);
    lemma_sniff_frame(s1, data, s2, cut_after_lines(data, n as nat));
}

proof fn lemma_select_chain_index(chains: Seq<Seq<usize>>, k: int)
    requires
        0 <= k <= 256,
    ensures
        select_chain(chains, k).0 == 44 || select_chain(chains, k).0 < k,
    decreases k,
{
    if k > 0 {
        lemma_select_chain_index(chains, k - 1);
    }
}

proof fn lemma_select_chain_source(chains: Seq<Seq<usize>>, k: int)
    requires
        0 <= k <= chains.len(),
    ensures
        ({
            let (d, f, s, c) = select_chain(chains, k);
            s < STATE_UNSTEADY ==> exists|j: int|
                0 <= j < k && d == j as u8 && #[trigger] chain_outcome(chains[j]) == Some((s, c, f))
        }),
    decreases k,
{
    if k > 0 {
        lemma_select_chain_source(chains, k - 1);
        let (d, f, s, c) = select_chain(chains, k);
        let acc = select_chain(chains, k - 1);
        if s < STATE_UNSTEADY {
            if (d, f, s, c) == acc {
                let j = choose|j: int|
                    0 <= j < k - 1 && acc.0 == j as u8 && #[trigger] chain_outcome(chains[j]) == Some(
                        (acc.2, acc.3, acc.1),
                    );
                assert(0 <= j < k && d == j as u8 && chain_outcome(chains[j]) == Some((s, c, f)));
            } else {
                assert(chain_outcome(chains[k - 1]) == Some((s, c, f)));
                assert(d == (k - 1) as u8);
            }
        }
    }
}

proof fn lemma_infer_quotes_unquoted(st0: SnifferState, lines: Seq<Seq<char>>)
    ensures
        infer_quotes_spec(st0, lines).1 && infer_quotes_spec(st0, lines).0.delimiter is None
            ==> infer_quotes_spec(st0, lines).0.quote == Some(Quote::Unquoted),
{
}

/// Sniffing again, with the dialect found, what was sniffed successfully
/// finds the same dialect and leaves the sniffer as it was: the delimiter,
/// the quote, the flexibility, the UTF-8 flag and the delimiter frequency.
pub proof fn lemma_resniff(st0: SnifferState, data: Seq<u8>, m: Metadata)
    requires
        sniff_spec(st0, data).1 == Ok::<Metadata, ()>(m),
    ensures
        sniff_spec(sniff_spec(st0, data).0, data) == (sniff_spec(st0, data).0, Ok::<Metadata, ()>(m)),
{
    lemma_sniff_spec_given(st0, data);
    let st1 = sniff_spec(st0, data).0;
    let size = sample_size_of(st0);
    let raw = sample_lines(data, size);
    let lines = sample_text(data, size);
    assert(sample_size_of(st1) == size);
    let (sa, oka) = infer_quotes_spec(st0, lines);
    assert(oka);
    // The second sniff keeps the dialect and checks the known delimiter.
    assert(infer_quotes_spec(st1, lines) == (st1, true));
    let d = m.dialect.delimiter;
    if sa.delimiter is Some {
        lemma_sample_known_frame(st1, sa, raw, lines);
        let (sb, okb) = sample_known_delim_spec(sa, raw, lines);
        assert(okb);
        assert(sample_known_delim_spec(st1, raw, lines).0 == (SnifferState {
            delimiter: sb.delimiter,
            flexible: sb.flexible,
            delimiter_freq: sb.delimiter_freq,
            ..st1
        }));
        assert(sample_known_delim_spec(st1, raw, lines).0 == st1);
    } else {
        lemma_infer_quotes_unquoted(st0, lines);
        assert(sa.quote == Some(Quote::Unquoted));
        let o = byte_obs(raw, d);
        let chains = byte_chains(raw);
        lemma_select_chain_source(chains, 128);
        let (d0, f, s, c) = select_chain(chains, 128);
        assert(s < STATE_UNSTEADY);
        let j = choose|j: int|
            0 <= j < 128 && d0 == j as u8 && #[trigger] chain_outcome(chains[j]) == Some((s, c, f));
        assert(d0 == d);
        assert(d < 128);
        assert(chains[j] == byte_obs(raw, j as u8));
        assert(chain_outcome(o) == Some((s, c, f)));
        assert(seq![o][0] == o);
        assert(select_chain(seq![o], 0).2 == STATE_UNSTEADY);
        assert(select_chain(seq![o], 1) == (0u8, f, s, c));
        assert(seq![o].len() == 1);
        assert(st1.delimiter == Some(d));
        assert(st1.quote == Some(Quote::Unquoted));
        assert(sample_known_delim_spec(st1, raw, lines) == run_chains_spec(st1, seq![o]));
        assert(run_chains_spec(st1, seq![o]).0 == st1);
    }
}

/// Checking a known delimiter in unquoted data depends only on how often it
/// occurs in each line: lines with the same counts line by line give the
/// same state and the same success.
pub proof fn lemma_known_delim_counts_only(st: SnifferState, l1: Seq<Seq<char>>, l2: Seq<Seq<char>>, d: u8)
    requires
        st.delimiter == Some(d),
        st.quote == Some(Quote::Unquoted),
        l1.len() == l2.len(),
        forall|i: int| 0 <= i < l1.len() ==> occurrences(encode_utf8(#[trigger] l1[i]), d) == occurrences(encode_utf8(l2[i]), d),
    ensures
        known_delim_spec(st, l1) == known_delim_spec(st, l2),
{
    assert(freq_obs(l1, d) =~= freq_obs(l2, d));
}

/// Inferring the delimiter depends only on how often each ASCII byte occurs
/// in each sampled line, as read: lines with the same counts line by line
/// give the same state and the same success, whatever their other bytes, and
/// whether or not they are well-formed UTF-8.
pub proof fn lemma_delim_inference_counts_only(st: SnifferState, l1: Seq<Seq<u8>>, l2: Seq<Seq<u8>>)
    requires
        l1.len() == l2.len(),
        forall|i: int, c: u8|
            0 <= i < l1.len() && c < 128 ==> #[trigger] occurrences(l1[i], c) == occurrences(l2[i], c),
    ensures
        run_chains_spec(st, byte_chains(l1)) == run_chains_spec(st, byte_chains(l2)),
{
    assert forall|c: int| 0 <= c < 128 implies #[trigger] byte_chains(l1)[c] == byte_chains(l2)[c] by {
        assert forall|i: int| 0 <= i < l1.len() implies #[trigger] byte_obs(l1, c as u8)[i] == byte_obs(l2, c as u8)[i] by {
            assert(occurrences(l1[i], c as u8) == occurrences(l2[i], c as u8));
        }
        assert(byte_obs(l1, c as u8) =~= byte_obs(l2, c as u8));
    }
    assert(byte_chains(l1) =~= byte_chains(l2));
}

/// Sniffing data known to be unquoted, with no delimiter given, depends only
/// on how often each ASCII byte occurs in each sampled line: two data whose
/// samples have as many lines, holding each ASCII byte equally often line by
/// line (the bytes of each line permuted, say), give the same result, and
/// after a success states that differ at most in the UTF-8 flag.
pub proof fn lemma_sniff_unquoted_counts_only(st0: SnifferState, x: Seq<u8>, y: Seq<u8>)
    requires
        st0.delimiter is None,
        st0.quote == Some(Quote::Unquoted),
        sample_lines(x, sample_size_of(st0)).len() == sample_lines(y, sample_size_of(st0)).len(),
        forall|i: int, c: u8|
            0 <= i < sample_lines(x, sample_size_of(st0)).len() && c < 128 ==> #[trigger] occurrences(
                sample_lines(x, sample_size_of(st0))[i],
                c,
            ) == occurrences(sample_lines(y, sample_size_of(st0))[i], c),
    ensures
        sniff_spec(st0, x).1 == sniff_spec(st0, y).1,
        sniff_spec(st0, x).1 is Ok ==> sniff_spec(st0, x).0 == (SnifferState {
            is_utf8: sniff_spec(st0, x).0.is_utf8,
            ..sniff_spec(st0, y).0
        }),
{
    let size = sample_size_of(st0);
    lemma_delim_inference_counts_only(st0, sample_lines(x, size), sample_lines(y, size));
    assert(infer_quotes_spec(st0, sample_text(x, size)) == (st0, true));
    assert(infer_quotes_spec(st0, sample_text(y, size)) == (st0, true));
}

/// The number of quoted cells that counting with one guess found (none when
/// it failed).
pub open spec fn cells_found(o: Result<Option<(int, u8)>, Seq<char>>) -> int {
    match o {
        Ok(Some((n, _))) => n,
        _ => 0,
    }
}

/// The delimiter that counting with one guess found.
pub open spec fn delim_found(o: Result<Option<(int, u8)>, Seq<char>>) -> u8 {
    match o {
        Ok(Some((_, d))) => d,
        _ => 0,
    }
}

/// With no quote given, the quote characters tried are `'`, `"` and `` ` ``,
/// in that order.  Inferring succeeds exactly when counting succeeds with
/// each of them; then the data is unquoted when none finds a quoted cell,
/// and otherwise the quote is the one that finds the most quoted cells (the
/// earliest of them on a tie), and the delimiter is the one it found.
pub proof fn lemma_infer_quotes_guesses(st: SnifferState, lines: Seq<Seq<char>>)
    requires
        st.quote is None,
    ensures
        ({
            let a = quote_outcome(lines, 39u8, st.delimiter);
            let b = quote_outcome(lines, 34u8, st.delimiter);
            let c = quote_outcome(lines, 96u8, st.delimiter);
            let (na, nb, nc) = (cells_found(a), cells_found(b), cells_found(c));
            let (st1, ok) = infer_quotes_spec(st, lines);
            &&& ok == (a is Ok && b is Ok && c is Ok)
            &&& ok && na == 0 && nb == 0 && nc == 0 ==> st1 == (SnifferState {
                quote: Some(Quote::Unquoted),
                ..st
            })
            &&& ok && na > 0 && na >= nb && na >= nc ==> st1 == (SnifferState {
                quote: Some(Quote::Quoted(39u8)),
                delimiter: Some(delim_found(a)),
                ..st
            })
            &&& ok && nb > 0 && nb > na && nb >= nc ==> st1 == (SnifferState {
                quote: Some(Quote::Quoted(34u8)),
                delimiter: Some(delim_found(b)),
                ..st
            })
            &&& ok && nc > 0 && nc > na && nc > nb ==> st1 == (SnifferState {
                quote: Some(Quote::Quoted(96u8)),
                delimiter: Some(delim_found(c)),
                ..st
            })
        }),
{
    let g = quote_guesses(st.quote);
    assert(g == seq![39u8, 34u8, 96u8]);
    reveal_with_fuel(guess_fold, 4);
    lemma_quote_outcome_count(lines, 39u8, st.delimiter);
    lemma_quote_outcome_count(lines, 34u8, st.delimiter);
    lemma_quote_outcome_count(lines, 96u8, st.delimiter);
}

/// With a quote given but no delimiter, only that quote is tried: inferring
/// succeeds exactly when counting with it succeeds; the data is then
/// unquoted when it finds no quoted cell, and otherwise keeps the quote and
/// takes the delimiter found.
pub proof fn lemma_infer_quotes_given(st: SnifferState, lines: Seq<Seq<char>>, q: u8)
    requires
        st.quote == Some(Quote::Quoted(q)),
        st.delimiter is None,
    ensures
        ({
            let o = quote_outcome(lines, q, None);
            let (st1, ok) = infer_quotes_spec(st, lines);
            &&& ok == o is Ok
            &&& ok && cells_found(o) == 0 ==> st1 == (SnifferState { quote: Some(Quote::Unquoted), ..st })
            &&& ok && cells_found(o) > 0 ==> st1 == (SnifferState {
                delimiter: Some(delim_found(o)),
                ..st
            })
        }),
{
    let g = quote_guesses(st.quote);
    assert(g == seq![q]);
    reveal_with_fuel(guess_fold, 2);
    lemma_quote_outcome_count(lines, q, None);
}

proof fn lemma_quote_outcome_count(lines: Seq<Seq<char>>, q: u8, delim: Option<u8>)
    ensures
        quote_outcome(lines, q, delim) matches Ok(Some((n, _))) ==> n > 0,
{
    lemma_match_count_nonneg(quote_pattern(q, delim), lines);
}

proof fn lemma_guess_fold_messages(lines: Seq<Seq<char>>, guesses: Seq<u8>, delim: Option<u8>, k: int)
    ensures
        guess_fold(lines, guesses, delim, k) matches Err(m) ==> (m == msg_bad_pattern() || m
            == msg_no_candidate()),
    decreases k,
{
    if k > 0 {
        lemma_guess_fold_messages(lines, guesses, delim, k - 1);
    }
}

/// A failed sniff fails with one of five messages: a pattern of quoted cells
/// that does not compile, no candidate delimiter after quoted cells, no
/// steady delimiter, or a full output buffer or buffer of field ends of the
/// CSV reader.  In particular it never reports that some metadata was left
/// unknown.
pub proof fn lemma_sniff_failure_messages(st0: SnifferState, data: Seq<u8>, m: Option<Seq<char>>)
    requires
        sniff_failure(st0, data, m),
    ensures
        m == Some(msg_bad_pattern()) || m == Some(msg_no_candidate()) || m == Some(msg_no_steady_delimiter())
            || m == Some(msg_output_full()) || m == Some(msg_output_ends_full()),
{
    let g = quote_guesses(st0.quote);
    lemma_guess_fold_messages(sample_text(data, sample_size_of(st0)), g, st0.delimiter, g.len() as int);
}

} // verus!
