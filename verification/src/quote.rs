//! Counting quoted cells with a regular expression, and tallying the byte
//! that follows each of them as a candidate delimiter.
use vstd::prelude::*;
use vstd::utf8::*;

use crate::error::{failure_message, msg_bad_pattern, msg_no_candidate, SnifferError};

verus! {

// ---------------------------------------------------------------------------
// The pattern
// ---------------------------------------------------------------------------

/// The regular expression of a quoted cell, optionally followed by a
/// delimiter.
///
/// With no delimiter known, a candidate is captured as the group `delim`:
/// one character that is no word character, no newline and no quote.  With a
/// delimiter known, it is matched but not captured.  The quote and the
/// delimiter bytes stand for the characters with those code points.
pub open spec fn quote_pattern(quote: u8, delim: Option<u8>) -> Seq<char> {
    let c = quote as char;
    let head = seq![c] + "(?P<field>(?:[^"@ + seq![c] + "]|"@ + seq![c, c] + ")*)"@ + seq![c];
    match delim {
        None => head + "(?:\\s*(?P<delim>[^\\w\\n"@ + seq![c] + "])\\s*)?"@,
        Some(d) => head + "(?:\\s*"@ + seq![d as char] + "\\s*)?"@,
    }
}

/// The pattern is the regular expression of a quoted cell `q...q` (a doubled
/// quote standing for a quote inside it), then optional white space, a
/// delimiter and white space.  With no delimiter known, the candidate is
/// captured as the group `delim`: any one character but a word character,
/// `\n` and the quote, so that a tab, a comma, a semicolon or a space
/// qualify.  With a delimiter known, that character stands in its place.
pub proof fn lemma_quote_pattern_text(quote: u8, delim: u8)
    ensures
        ({
            let q = seq![quote as char];
            let cell = q + "(?P<field>(?:[^"@ + q + "]|"@ + q + q + ")*)"@ + q;
            &&& quote_pattern(quote, None) == cell + "(?:\\s*(?P<delim>[^\\w\\n"@ + q + "])\\s*)?"@
            &&& quote_pattern(quote, Some(delim)) == cell + "(?:\\s*"@ + seq![delim as char] + "\\s*)?"@
        }),
{
    let c = quote as char;
    let q = seq![c];
    assert(seq![c, c] =~= q + q);
    let cell = q + "(?P<field>(?:[^"@ + q + "]|"@ + q + q + ")*)"@ + q;
    let head = seq![c] + "(?P<field>(?:[^"@ + seq![c] + "]|"@ + seq![c, c] + ")*)"@ + seq![c];
    assert(head =~= cell);
}

/// Calls `String::push`.
///
/// Trusted: the character is appended to the text.
#[verifier::external_body]
fn push_char(s: &mut String, c: char)
    ensures
        final(s)@ == old(s)@.push(c),
{
    s.push(c);
}

/// Builds the text of `quote_pattern`.
fn build_pattern(quote: u8, delim: Option<u8>) -> (p: String)
    ensures
        p@ == quote_pattern(quote, delim),
{
    let c = quote as char;
    let mut p = String::new();
    push_char(&mut p, c);
    p.append("(?P<field>(?:[^");
    push_char(&mut p, c);
    p.append("]|");
    push_char(&mut p, c);
    push_char(&mut p, c);
    p.append(")*)");
    push_char(&mut p, c);
    match delim {
        None => {
            p.append("(?:\\s*(?P<delim>[^\\w\\n");
            push_char(&mut p, c);
            p.append("])\\s*)?");
        },
        Some(d) => {
            p.append("(?:\\s*");
            push_char(&mut p, d as char);
            p.append("\\s*)?");
        },
    }
    assert(p@ =~= quote_pattern(quote, delim));
    p
}

// ---------------------------------------------------------------------------
// The regular expression
// ---------------------------------------------------------------------------

/// Whether `regex::Regex::new` accepts `pattern`.
pub uninterp spec fn regex_compiles(pattern: Seq<char>) -> bool;

/// For the regular expression `pattern` and the text `line`: one entry per
/// match that `regex::Regex::captures_iter` yields, in order, holding the
/// UTF-8 bytes of the group `delim` when that group took part in the match.
pub uninterp spec fn quote_matches(pattern: Seq<char>, line: Seq<char>) -> Seq<Option<Seq<u8>>>;

#[verifier::external_type_specification]
#[verifier::external_body]
pub struct ExRegex(regex::Regex);

/// A compiled regular expression, with the pattern it was compiled from.
pub struct QuoteRegex {
    re: regex::Regex,
    pattern: Ghost<Seq<char>>,
}

impl QuoteRegex {
    /// The pattern the expression was compiled from.
    pub closed spec fn pattern(&self) -> Seq<char> {
        self.pattern@
    }
}

/// Calls `regex::Regex::new`.
///
/// Trusted: it succeeds exactly when `regex_compiles` holds of the pattern,
/// and the compiled expression remembers the pattern.
#[verifier::external_body]
fn compile(pattern: &str) -> (res: Option<QuoteRegex>)
    ensures
        res is Some == regex_compiles(pattern@),
        res matches Some(r) ==> r.pattern() == pattern@,
{
    match regex::Regex::new(pattern) {
        Ok(re) => Some(QuoteRegex { re, pattern: Ghost(pattern@) }),
        Err(_) => None,
    }
}

/// The view of a captured group.
pub open spec fn group_view(g: Option<Vec<u8>>) -> Option<Seq<u8>> {
    match g {
        Some(v) => Some(v@),
        None => None,
    }
}

/// Calls `regex::Regex::captures_iter` and takes from each match the bytes
/// of the group `delim`.
///
/// Trusted: the result is `quote_matches` of the pattern and the line, and
/// each group is well-formed UTF-8 (the bytes of a `&str`).
#[verifier::external_body]
fn delim_groups(re: &QuoteRegex, line: &str) -> (groups: Vec<Option<Vec<u8>>>)
    ensures
        groups@.map_values(|g: Option<Vec<u8>>| group_view(g)) == quote_matches(re.pattern(), line@),
        forall|i: int| 0 <= i < groups@.len() ==> (#[trigger] groups@[i] matches Some(g) ==> valid_utf8(g@)),
{
    re.re.captures_iter(line).map(|c| c.name("delim").map(|m| m.as_str().as_bytes().to_vec())).collect()
}

// ---------------------------------------------------------------------------
// The tally of candidate delimiters
// ---------------------------------------------------------------------------

/// How often each candidate delimiter byte followed a quoted cell, held in a
/// `hashbrown::HashMap`.
#[verifier::external_body]
pub struct Tally {
    counts: hashbrown::HashMap<u8, u128>,
}

/// The counts that a tally holds.
pub uninterp spec fn tally_counts(t: Tally) -> Map<u8, u128>;

/// Calls `hashbrown::HashMap::new`.
///
/// Trusted: the new map is empty.
#[verifier::external_body]
fn tally_new() -> (t: Tally)
    ensures
        tally_counts(t).dom().is_empty(),
{
    Tally { counts: hashbrown::HashMap::new() }
}

/// Calls `hashbrown::HashMap::get` and copies the count out.
///
/// Trusted: the count stored under `key`, if any.
#[verifier::external_body]
fn tally_get(t: &Tally, key: u8) -> (count: Option<u128>)
    ensures
        count == (if tally_counts(*t).dom().contains(key) {
            Some(tally_counts(*t)[key])
        } else {
            None
        }),
{
    t.counts.get(&key).copied()
}

/// Calls `hashbrown::HashMap::insert`.
///
/// Trusted: afterwards `key` holds `count` and every other key is unchanged.
#[verifier::external_body]
fn tally_insert(t: &mut Tally, key: u8, count: u128)
    ensures
        tally_counts(*final(t)) == tally_counts(*old(t)).insert(key, count),
{
    t.counts.insert(key, count);
}

/// The count of `key` in a map of counts (zero when absent).
pub open spec fn count_of(m: Map<u8, u128>, key: u8) -> int {
    if m.dom().contains(key) {
        m[key] as int
    } else {
        0
    }
}

// ---------------------------------------------------------------------------
// What is counted
// ---------------------------------------------------------------------------

/// The number of quoted cells in `lines`.
pub open spec fn match_count(pattern: Seq<char>, lines: Seq<Seq<char>>) -> int
    decreases lines.len(),
{
    if lines.len() == 0 {
        0
    } else {
        match_count(pattern, lines.drop_last()) + quote_matches(pattern, lines.last()).len()
    }
}

/// The number of matches whose captured delimiter is the single byte `b`.
pub open spec fn groups_with(groups: Seq<Option<Seq<u8>>>, b: u8) -> int
    decreases groups.len(),
{
    if groups.len() == 0 {
        0
    } else {
        groups_with(groups.drop_last(), b) + if groups.last() == Some(seq![b]) {
            1int
        } else {
            0
        }
    }
}

/// The number of quoted cells in `lines` followed by the candidate `b`.
pub open spec fn delim_tally(pattern: Seq<char>, lines: Seq<Seq<char>>, b: u8) -> int
    decreases lines.len(),
{
    if lines.len() == 0 {
        0
    } else {
        delim_tally(pattern, lines.drop_last(), b) + groups_with(quote_matches(pattern, lines.last()), b)
    }
}

/// Among the bytes below `k`, the first with the highest tally, and that
/// tally; `(0, 0)` when every tally is zero.
pub open spec fn best_candidate(pattern: Seq<char>, lines: Seq<Seq<char>>, k: int) -> (int, u8)
    decreases k,
{
    if k <= 0 {
        (0, 0)
    } else {
        let (c, b) = best_candidate(pattern, lines, k - 1);
        let t = delim_tally(pattern, lines, (k - 1) as u8);
        if t > c {
            (t, (k - 1) as u8)
        } else {
            (c, b)
        }
    }
}

/// What counting quoted cells with quote `quote` finds in `lines`:
/// `Ok(None)` for no quoted cell; else the number of quoted cells and the
/// delimiter (the known one, or the candidate that followed most cells, the
/// lowest byte on a tie).  It fails, with its message, when the pattern does
/// not compile, or when no single-byte candidate was seen.
pub open spec fn quote_outcome(lines: Seq<Seq<char>>, quote: u8, delim: Option<u8>) -> Result<
    Option<(int, u8)>,
    Seq<char>,
> {
    let p = quote_pattern(quote, delim);
    let count = match_count(p, lines);
    if !regex_compiles(p) {
        Err(msg_bad_pattern())
    } else if count == 0 {
        Ok(None)
    } else {
        match delim {
            Some(d) => Ok(Some((count, d))),
            None => {
                let (c, b) = best_candidate(p, lines, 256);
                if c == 0 {
                    Err(msg_no_candidate())
                } else {
                    Ok(Some((count, b)))
                }
            },
        }
    }
}

pub(crate) proof fn lemma_match_count_nonneg(pattern: Seq<char>, lines: Seq<Seq<char>>)
    ensures
        match_count(pattern, lines) >= 0,
    decreases lines.len(),
{
    if lines.len() > 0 {
        lemma_match_count_nonneg(pattern, lines.drop_last());
    }
}

proof fn lemma_groups_with_bound(groups: Seq<Option<Seq<u8>>>, b: u8)
    ensures
        0 <= groups_with(groups, b) <= groups.len(),
    decreases groups.len(),
{
    if groups.len() > 0 {
        lemma_groups_with_bound(groups.drop_last(), b);
    }
}

proof fn lemma_tally_bound(pattern: Seq<char>, lines: Seq<Seq<char>>, b: u8)
    ensures
        0 <= delim_tally(pattern, lines, b) <= match_count(pattern, lines),
    decreases lines.len(),
{
    if lines.len() > 0 {
        lemma_tally_bound(pattern, lines.drop_last(), b);
        lemma_groups_with_bound(quote_matches(pattern, lines.last()), b);
    }
}

proof fn lemma_best_candidate_bound(pattern: Seq<char>, lines: Seq<Seq<char>>, k: int)
    ensures
        0 <= best_candidate(pattern, lines, k).0 <= match_count(pattern, lines),
    decreases k,
{
    lemma_tally_bound(pattern, lines, 0);
    if k > 0 {
        lemma_best_candidate_bound(pattern, lines, k - 1);
        lemma_tally_bound(pattern, lines, (k - 1) as u8);
    }
}

/// The text of each line.
pub open spec fn texts(lines: Seq<String>) -> Seq<Seq<char>> {
    lines.map_values(|l: String| l@)
}

/// Counts the quoted cells that the pattern of `quote` (and `delim`, when
/// known) finds in `lines`, and picks the delimiter.
///
/// The result is `quote_outcome`: `Ok(None)` when no cell is quoted, the
/// known delimiter when there is one, else the single-byte candidate that
/// followed the most cells, the lowest byte on a tie.  With no such
/// candidate the result is the error "invalid regex match: no delimiter
/// found"; when the pattern does not compile (a given delimiter such as `(`
/// can make it invalid), the error "invalid regex pattern for quoted cells".
pub fn quote_count(lines: &Vec<String>, quote: u8, delim: Option<u8>) -> (res: Result<
    Option<(u128, u8)>,
    SnifferError,
>)
    ensures
        match (res, quote_outcome(texts(lines@), quote, delim)) {
            (Ok(None), Ok(None)) => true,
            (Ok(Some((c, d))), Ok(Some((c2, d2)))) => c == c2 && d == d2,
            (Err(e), Err(m)) => failure_message(e) == Some(m),
            _ => false,
        },
        delim is None ==> (res matches Ok(Some((_, d))) ==> d < 128),
{
    broadcast use vstd::string::to_string_from_display_ensures_for_str;

    let pattern = build_pattern(quote, delim);
    let re = match compile(pattern.as_str()) {
        Some(re) => re,
        None => {
            return Err(SnifferError::SniffingFailed("invalid regex pattern for quoted cells".to_string()));
        },
    };
    let ghost p = quote_pattern(quote, delim);
    let ghost ls = texts(lines@);
    let mut tally = tally_new();
    let mut count: u128 = 0;
    let mut i: usize = 0;
    while i < lines.len()
        invariant
            i <= lines@.len(),
            re.pattern() == p,
            ls == texts(lines@),
            count == match_count(p, ls.take(i as int)),
            count <= i * (usize::MAX as int),
            forall|b: u8|
                #[trigger] count_of(tally_counts(tally), b) == (if delim is None {
                    delim_tally(p, ls.take(i as int), b)
                } else {
                    0
                }),
            forall|b: u8| 128 <= b ==> #[trigger] count_of(tally_counts(tally), b) == 0,
        decreases lines@.len() - i,
    {
        let groups = delim_groups(&re, lines[i].as_str());
        let ghost gs = quote_matches(p, ls[i as int]);
        proof {
            assert(groups@.map_values(|g: Option<Vec<u8>>| group_view(g)) == gs);
        }
        let mut j: usize = 0;
        while j < groups.len()
            invariant
                i < lines@.len(),
                i < usize::MAX,
                j <= groups@.len(),
                groups@.map_values(|g: Option<Vec<u8>>| group_view(g)) == gs,
                count == match_count(p, ls.take(i as int)) + j,
                count <= i * (usize::MAX as int) + j,
                forall|b: u8|
                    #[trigger] count_of(tally_counts(tally), b) == (if delim is None {
                        delim_tally(p, ls.take(i as int), b) + groups_with(gs.take(j as int), b)
                    } else {
                        0
                    }),
                forall|b: u8| 128 <= b ==> #[trigger] count_of(tally_counts(tally), b) == 0,
                forall|k: int| 0 <= k < groups@.len() ==> (#[trigger] groups@[k] matches Some(g) ==> valid_utf8(g@)),
            decreases groups@.len() - j,
        {
            proof {
                assert(i * (usize::MAX as int) + j < u128::MAX) by (nonlinear_arith)
                    requires
                        i < usize::MAX,
                        j < usize::MAX,
                ;
                assert(gs.take(j + 1).drop_last() =~= gs.take(j as int));
                assert(gs[j as int] == group_view(groups@[j as int]));
            }
            count = count + 1;
            if delim.is_none() {
                match &groups[j] {
                    Some(d) => {
                        if d.len() == 1 {
                            let key = d[0];
                            proof {
                                assert(valid_utf8(d@));
                                assert(key < 128);
                                assert(d@ =~= seq![key]);
                                lemma_tally_bound(p, ls.take(i as int), key);
                                lemma_groups_with_bound(gs.take(j as int), key);
                            }
                            let old = match tally_get(&tally, key) {
                                Some(c) => c,
                                None => 0,
                            };
                            assert(old as int == count_of(tally_counts(tally), key));
                            let ghost t0 = tally;
                            tally_insert(&mut tally, key, old + 1);
                            proof {
                                assert forall|b: u8| 128 <= b implies #[trigger] count_of(tally_counts(tally), b) == 0 by {
                                    assert(count_of(tally_counts(t0), b) == 0);
                                }
                                assert(gs.take(j + 1).last() == gs[j as int]);
                                assert forall|b: u8|
                                    #[trigger] count_of(tally_counts(tally), b) == delim_tally(
                                        p,
                                        ls.take(i as int),
                                        b,
                                    ) + groups_with(gs.take(j + 1), b) by {
                                    assert(count_of(tally_counts(t0), b) == delim_tally(
                                        p,
                                        ls.take(i as int),
                                        b,
                                    ) + groups_with(gs.take(j as int), b));
                                    if b != key {
                                        assert(seq![key] != seq![b]) by {
                                            assert(seq![key][0] != seq![b][0]);
                                        }
                                    }
                                }
                            }
                        } else {
                            proof {
                                assert(gs.take(j + 1).last() == gs[j as int]);
                                assert forall|b: u8|
                                    #[trigger] count_of(tally_counts(tally), b) == delim_tally(
                                        p,
                                        ls.take(i as int),
                                        b,
                                    ) + groups_with(gs.take(j + 1), b) by {
                                    assert(d@.len() != seq![b].len());
                                }
                            }
                        }
                    },
                    None => {},
                }
            }
            j = j + 1;
        }
        proof {
            assert(gs.take(groups@.len() as int) =~= gs);
            assert(ls.take(i + 1).drop_last() =~= ls.take(i as int));
            assert(ls.take(i + 1).last() == ls[i as int]);
            assert(groups@.len() == gs.len());
            assert((i + 1) * (usize::MAX as int) == i * (usize::MAX as int) + usize::MAX) by (nonlinear_arith);
        }
        i = i + 1;
    }
    proof {
        assert(ls.take(lines@.len() as int) =~= ls);
    }
    if count == 0 {
        return Ok(None);
    }
    match delim {
        Some(d) => {
            return Ok(Some((count, d)));
        },
        None => {},
    }
    // Pick the candidate that followed the most quoted cells.
    let mut best_count: u128 = 0;
    let mut best: u8 = 0;
    let mut k: usize = 0;
    while k < 256
        invariant
            k <= 256,
            delim is None,
            forall|b: u8| #[trigger] count_of(tally_counts(tally), b) == delim_tally(p, ls, b),
            best_candidate(p, ls, k as int) == (best_count as int, best),
            forall|b: u8| 128 <= b ==> #[trigger] count_of(tally_counts(tally), b) == 0,
            best_count > 0 ==> best < 128,
        decreases 256 - k,
    {
        let key = k as u8;
        let c = match tally_get(&tally, key) {
            Some(c) => c,
            None => 0,
        };
        assert(c as int == count_of(tally_counts(tally), key));
        assert(c == delim_tally(p, ls, key));
        if c > best_count {
            best_count = c;
            best = key;
        }
        k = k + 1;
    }
    if best_count == 0 {
        return Err(SnifferError::SniffingFailed("invalid regex match: no delimiter found".to_string()));
    }
    Ok(Some((count, best)))
}

/// Choosing the candidate delimiter: the chosen tally is the highest tally
/// of any byte, and when it is not zero the chosen byte has it and every
/// lower byte has less, so that a tie goes to the lowest byte whatever order
/// the candidates were seen in.
pub proof fn lemma_best_candidate_is_first_max(pattern: Seq<char>, lines: Seq<Seq<char>>, b: u8)
    ensures
        ({
            let (c, best) = best_candidate(pattern, lines, 256);
            &&& delim_tally(pattern, lines, b) <= c
            &&& c > 0 ==> delim_tally(pattern, lines, best) == c
            &&& c > 0 && b < best ==> delim_tally(pattern, lines, b) < c
        }),
{
    lemma_best_candidate_prefix(pattern, lines, 256, b);
}

proof fn lemma_best_candidate_prefix(pattern: Seq<char>, lines: Seq<Seq<char>>, k: int, b: u8)
    requires
        0 <= k <= 256,
    ensures
        ({
            let (c, best) = best_candidate(pattern, lines, k);
            &&& (b < k ==> delim_tally(pattern, lines, b) <= c)
            &&& c > 0 ==> best < k && delim_tally(pattern, lines, best) == c
            &&& c > 0 && b < best ==> delim_tally(pattern, lines, b) < c
        }),
    decreases k,
{
    lemma_tally_bound(pattern, lines, b);
    if k > 0 {
        lemma_best_candidate_prefix(pattern, lines, k - 1, b);
        let (c0, b0) = best_candidate(pattern, lines, k - 1);
        let t = delim_tally(pattern, lines, (k - 1) as u8);
        if b == (k - 1) as u8 {
            assert(b as int == k - 1);
        }
        if c0 > 0 && b < b0 {
            assert(b < k - 1);
        }
        lemma_best_candidate_bound(pattern, lines, k - 1);
        assert(((k - 1) as u8) as int == k - 1);
    }
}

} // verus!
