use csv_scout::chain::{Chain, STATE_STEADYFLEX, STATE_STEADYSTRICT, STATE_UNSTEADY};
use csv_scout::fields::quoted_field_counts;
use csv_scout::metadata::{Dialect, Metadata, Quote};
use csv_scout::quote::quote_count;
use csv_scout::sample::take_sample_from_start;
use csv_scout::{SampleSize, Sniffer, SnifferError};

fn chain_of(obs: &[usize]) -> Chain {
    let mut chain = Chain::new();
    for &o in obs {
        chain.add_observation(o);
    }
    chain
}

fn lines_of(texts: &[&str]) -> Vec<String> {
    texts.iter().map(|t| t.to_string()).collect()
}

fn failure_message(res: Result<Metadata, SnifferError>) -> String {
    match res {
        Err(SnifferError::SniffingFailed(msg)) => msg,
        other => panic!("expected a sniffing failure, got {:?}", other),
    }
}

#[test]
fn default_sample_size_is_4096_bytes() {
    let sniffer = Sniffer::new();
    assert_eq!(sniffer.get_sample_size(), SampleSize::Bytes(4096));
    let sniffer = Sniffer::default();
    assert_eq!(sniffer.get_sample_size(), SampleSize::Bytes(4096));
}

#[test]
fn builders_set_what_they_name() {
    let mut sniffer = Sniffer::new();
    sniffer.sample_size(SampleSize::Records(7)).delimiter(b';').quote(Quote::Unquoted);
    assert_eq!(sniffer.get_sample_size(), SampleSize::Records(7));
    let metadata = sniffer.sniff_reader(b"a;b\n1;2\n").unwrap();
    assert_eq!(metadata.dialect, Dialect { delimiter: b';', quote: Quote::Unquoted });
}

#[test]
fn sample_trims_line_ends_and_drops_an_unterminated_last_line() {
    let (lines, utf8) = take_sample_from_start(b"a,b\r\n\rc,d\nlast", SampleSize::All);
    assert_eq!(lines, vec!["a,b".to_string(), "c,d".to_string()]);
    assert!(utf8);
}

#[test]
fn sample_keeps_a_last_line_ending_in_carriage_return() {
    let (lines, _) = take_sample_from_start(b"x\ny\r", SampleSize::All);
    assert_eq!(lines, vec!["x".to_string(), "y".to_string()]);
}

#[test]
fn sample_respects_record_and_byte_limits() {
    let data = b"a\r\nb\nc\n";
    let (lines, _) = take_sample_from_start(data, SampleSize::Records(1));
    assert_eq!(lines, vec!["a".to_string()]);
    let (lines, _) = take_sample_from_start(data, SampleSize::Records(0));
    assert!(lines.is_empty());
    // "a\r\n" is 3 bytes; with "b\n" the count would be 5.
    let (lines, _) = take_sample_from_start(data, SampleSize::Bytes(3));
    assert_eq!(lines, vec!["a".to_string()]);
    let (lines, _) = take_sample_from_start(data, SampleSize::Bytes(5));
    assert_eq!(lines, vec!["a".to_string(), "b".to_string()]);
    let (lines, _) = take_sample_from_start(data, SampleSize::Bytes(2));
    assert!(lines.is_empty());
}

#[test]
fn sample_replaces_invalid_utf8_and_reports_it() {
    let (lines, utf8) = take_sample_from_start(b"ok\n\xff,1\n", SampleSize::All);
    assert_eq!(lines, vec!["ok".to_string(), "\u{FFFD},1".to_string()]);
    assert!(!utf8);
}

#[test]
fn a_known_unquoted_delimiter_is_counted_per_line() {
    let mut sniffer = Sniffer::new();
    sniffer.delimiter(b',').quote(Quote::Unquoted);
    let metadata = sniffer.sniff_reader(b"a,b,,c
1,2,,3
").unwrap();
    assert_eq!(metadata.dialect, Dialect { delimiter: b',', quote: Quote::Unquoted });
    let text = format!("{:?}", sniffer);
    assert!(text.contains("delimiter_freq: Some(3)"));
    assert!(text.contains("flexible: Some(false)"));
}

#[test]
fn quoted_field_counts_skip_delimiters_inside_quotes() {
    let lines = lines_of(&["\"a,b\",c", "1,2,3"]);
    let counts = quoted_field_counts(&lines, b',', b'"').unwrap();
    assert_eq!(counts, vec![1, 2]);
}

#[test]
fn quoted_field_counts_follow_a_field_across_lines() {
    let lines = lines_of(&["x,\"one", "two,three\",y"]);
    let counts = quoted_field_counts(&lines, b',', b'"').unwrap();
    assert_eq!(counts, vec![1, 1]);
}

#[test]
fn viterbi_of_an_empty_chain_has_no_path() {
    let chain = Chain::new();
    let res = chain.viterbi();
    assert_eq!(res.max_delim_freq, 0);
    assert!(res.path.is_empty());
    assert_eq!(chain.final_outcome(), None);
}

#[test]
fn viterbi_of_zeros_is_unsteady_and_impossible() {
    let chain = chain_of(&[0, 0, 0]);
    let res = chain.viterbi();
    assert_eq!(res.path.len(), 1);
    assert_eq!(res.path[0].0, STATE_UNSTEADY);
    assert_eq!(res.path[0].1.cost, None);
    assert_eq!(chain.final_outcome(), Some((STATE_UNSTEADY, None, 0)));
}

#[test]
fn viterbi_of_a_constant_chain_is_strict() {
    let chain = chain_of(&[3, 3, 3]);
    let res = chain.viterbi();
    assert_eq!(res.max_delim_freq, 3);
    assert_eq!(res.path.len(), 4);
    for (state, _) in &res.path {
        assert_eq!(*state, STATE_STEADYSTRICT);
    }
    // start 1585, then three steps of staying (29) and emitting the maximum (0)
    assert_eq!(res.path[3].1.cost, Some(1585 + 3 * 29));
    assert_eq!(res.path[0].1.prev, None);
    assert_eq!(res.path[3].1.prev, Some(STATE_STEADYSTRICT));
}

#[test]
fn viterbi_of_a_varying_chain_is_flexible() {
    let chain = chain_of(&[2, 1, 2, 2]);
    // start 1585, four stays (4 * 29), three maxima (3 * 737) and one other (1737)
    assert_eq!(chain.final_outcome(), Some((STATE_STEADYFLEX, Some(1585 + 4 * 29 + 3 * 737 + 1737), 2)));
}

#[test]
fn viterbi_of_a_noisy_chain_is_unsteady() {
    let chain = chain_of(&[1, 5, 2, 0, 3, 0, 4]);
    let (state, _, freq) = chain.final_outcome().unwrap();
    assert_eq!(state, STATE_UNSTEADY);
    assert_eq!(freq, 5);
}

#[test]
fn run_chains_prefers_the_steadier_chain() {
    let mut sniffer = Sniffer::new();
    let chains = vec![chain_of(&[1, 2, 3, 0]), chain_of(&[2, 1, 2, 2]), chain_of(&[4, 4, 4, 4])];
    sniffer.run_chains(chains).unwrap();
    // the third chain is strict: its index is the delimiter
    let metadata = sniffer.quote(Quote::Unquoted).sniff_reader(b"").err();
    assert!(metadata.is_some());
    let text = format!("{:?}", sniffer);
    assert!(text.contains("delimiter: Some(2)"));
    assert!(text.contains("flexible: Some(false)"));
    assert!(text.contains("delimiter_freq: Some(4)"));
}

#[test]
fn run_chains_fails_without_a_steady_chain() {
    let mut sniffer = Sniffer::new();
    let res = sniffer.run_chains(vec![chain_of(&[0, 0]), Chain::new()]);
    match res {
        Err(SnifferError::SniffingFailed(msg)) => assert_eq!(msg, "unable to find valid delimiter"),
        _ => panic!("expected a failure"),
    }
}

#[test]
fn quote_count_counts_cells_and_tallies_delimiters() {
    let lines = lines_of(&["\"a\",\"b\"", "\"c\";x"]);
    assert_eq!(quote_count(&lines, b'"', None).unwrap(), Some((3, b',')));
    assert_eq!(quote_count(&lines, b'"', Some(b'|')).unwrap(), Some((3, b'|')));
    assert_eq!(quote_count(&lines, b'\'', None).unwrap(), None);
}

#[test]
fn quote_count_breaks_ties_towards_the_lowest_byte() {
    let lines = lines_of(&["\"a\";\"b\",\"c\""]);
    assert_eq!(quote_count(&lines, b'"', None).unwrap(), Some((3, b',')));
    let lines = lines_of(&["\"a\":\"b\";\"c\""]);
    assert_eq!(quote_count(&lines, b'"', None).unwrap(), Some((3, b':')));
}

#[test]
fn quote_count_fails_without_a_candidate() {
    let lines = lines_of(&["\"abc\"", "\"def\""]);
    match quote_count(&lines, b'"', None) {
        Err(SnifferError::SniffingFailed(msg)) => assert_eq!(msg, "invalid regex match: no delimiter found"),
        _ => panic!("expected a failure"),
    }
}

#[test]
fn quote_count_fails_when_the_pattern_does_not_compile() {
    let lines = lines_of(&["\"a\"(\"b\""]);
    match quote_count(&lines, b'"', Some(b'(')) {
        Err(SnifferError::SniffingFailed(msg)) => assert_eq!(msg, "invalid regex pattern for quoted cells"),
        _ => panic!("expected a failure"),
    }
    assert_eq!(quote_count(&lines, b'"', Some(b',')).unwrap(), Some((2, b',')));
}

#[test]
fn sniffs_unquoted_semicolons() {
    let mut sniffer = Sniffer::new();
    let metadata = sniffer.sniff_reader(b"a;b;c\n1;2;3\n4;5;6\n").unwrap();
    assert_eq!(metadata.dialect, Dialect { delimiter: b';', quote: Quote::Unquoted });
    let text = format!("{:?}", sniffer);
    assert!(text.contains("flexible: Some(false)"));
    assert!(text.contains("delimiter_freq: Some(2)"));
    assert!(text.contains("is_utf8: Some(true)"));
}

#[test]
fn sniffs_tabs() {
    let mut sniffer = Sniffer::new();
    let metadata = sniffer.sniff_reader(b"name\tage\nann\t3\nbob\t4\n").unwrap();
    assert_eq!(metadata.dialect, Dialect { delimiter: b'\t', quote: Quote::Unquoted });
}

#[test]
fn empty_data_has_no_delimiter() {
    let mut sniffer = Sniffer::new();
    let msg = failure_message(sniffer.sniff_reader(b""));
    assert_eq!(msg, "unable to find valid delimiter");
}

#[test]
fn quoted_cells_without_delimiter_fail() {
    let mut sniffer = Sniffer::new();
    let msg = failure_message(sniffer.sniff_reader(b"\"abc\"\n\"def\"\n"));
    assert_eq!(msg, "invalid regex match: no delimiter found");
}

#[test]
fn a_given_quote_without_quoted_cells_gives_way_to_unquoted() {
    let mut sniffer = Sniffer::new();
    sniffer.quote(Quote::Quoted(b'"'));
    let metadata = sniffer.sniff_reader(b"a,b\n1,2\n").unwrap();
    assert_eq!(metadata.dialect, Dialect { delimiter: b',', quote: Quote::Unquoted });
}

#[test]
fn a_given_delimiter_is_kept() {
    let mut sniffer = Sniffer::new();
    sniffer.delimiter(b',');
    let metadata = sniffer.sniff_reader(b"\"a\";\"b\",c\n\"d\";\"e\",f\n").unwrap();
    assert_eq!(metadata.dialect.delimiter, b',');
    assert_eq!(metadata.dialect.quote, Quote::Quoted(b'"'));
}

#[test]
fn what_a_sniff_infers_is_kept_for_the_next_sniff() {
    let mut sniffer = Sniffer::new();
    let first = sniffer.sniff_reader(b"a;b\n1;2\n").unwrap();
    assert_eq!(first.dialect.delimiter, b';');
    // The next sniff keeps ';' and the unquoted dialect, which the data does not fit.
    let msg = failure_message(sniffer.sniff_reader(b"a,b\n1,2\n"));
    assert_eq!(msg, "unable to find valid delimiter");
}

#[test]
fn sniffing_twice_gives_the_same_result() {
    let data = b"x|y|z\n1|2|3\n4|5|6\n";
    let a = Sniffer::new().sniff_reader(data).unwrap();
    let b = Sniffer::new().sniff_reader(data).unwrap();
    assert_eq!(a, b);
    assert_eq!(a.dialect.delimiter, b'|');
}

#[test]
fn reports_non_utf8_samples() {
    let mut sniffer = Sniffer::new();
    sniffer.sniff_reader(b"a,b\n\xff,2\n").unwrap();
    assert!(format!("{:?}", sniffer).contains("is_utf8: Some(false)"));
}

#[test]
fn a_pattern_that_does_not_compile_is_an_error() {
    let mut sniffer = Sniffer::new();
    sniffer.quote(Quote::Quoted(b')'));
    let msg = failure_message(sniffer.sniff_reader(b"a,b\n"));
    assert_eq!(msg, "invalid regex pattern for quoted cells");
    let mut sniffer = Sniffer::new();
    sniffer.delimiter(b'(');
    let msg = failure_message(sniffer.sniff_reader(b"a(b\n1(2\n"));
    assert_eq!(msg, "invalid regex pattern for quoted cells");
    let mut sniffer = Sniffer::new();
    sniffer.delimiter(b'(').quote(Quote::Unquoted);
    let res = sniffer.sniff_reader(b"a(b\n1(2\n").unwrap();
    assert_eq!(res.dialect.delimiter, b'(');
}

#[test]
fn ascii_counts_decide_even_for_bytes_that_are_not_utf8() {
    let mut s1 = Sniffer::new();
    s1.quote(Quote::Unquoted);
    let mut s2 = Sniffer::new();
    s2.quote(Quote::Unquoted);
    let r1 = s1.sniff_reader(b"a;\xff\nb;c\n").unwrap();
    let r2 = s2.sniff_reader(b"\xff;a\nc;b\n").unwrap();
    assert_eq!(r1, r2);
    assert_eq!(r1.dialect.delimiter, b';');
}

#[test]
fn infers_a_backtick_quote() {
    let mut sniffer = Sniffer::new();
    let metadata = sniffer.sniff_reader(b"`a`|`b`|c\n`d`|`e`|f\n").unwrap();
    assert_eq!(metadata.dialect, Dialect { delimiter: b'|', quote: Quote::Quoted(b'`') });
}

#[test]
fn sniffing_again_with_the_dialect_found_gives_it_back() {
    let data = b"a;b;c\n1;2;3\n4;5;6\n";
    let mut sniffer = Sniffer::new();
    let first = sniffer.sniff_reader(data).unwrap();
    let second = sniffer.sniff_reader(data).unwrap();
    assert_eq!(first, second);
    assert_eq!(second.dialect, Dialect { delimiter: b';', quote: Quote::Unquoted });
}

#[test]
fn ragged_rows_are_flexible() {
    let mut sniffer = Sniffer::new();
    let metadata = sniffer.sniff_reader(b"a,b,c\n1,2\n3,4,5\n6,7,8\n").unwrap();
    assert_eq!(metadata.dialect, Dialect { delimiter: b',', quote: Quote::Unquoted });
    assert!(format!("{:?}", sniffer).contains("flexible: Some(true)"));
}

#[test]
fn resniffing_quoted_data_keeps_the_state() {
    let data = b"\"a,x\";b;c\n\"1\";2;3\n\"4\";5;6\n";
    let mut sniffer = Sniffer::new();
    let first = sniffer.sniff_reader(data).unwrap();
    assert_eq!(first.dialect, Dialect { delimiter: b';', quote: Quote::Quoted(b'"') });
    let state = format!("{:?}", sniffer);
    let second = sniffer.sniff_reader(data).unwrap();
    assert_eq!(first, second);
    assert_eq!(format!("{:?}", sniffer), state);
}

#[test]
fn quoted_data_sniffs_the_same_in_two_sniffers() {
    let data = b"\"k\":\"v\",\"n\":1\n\"k\":\"w\",\"n\":2\n";
    let a = Sniffer::new().sniff_reader(data);
    let b = Sniffer::new().sniff_reader(data);
    assert_eq!(format!("{:?}", a), format!("{:?}", b));
}

#[test]
fn a_records_sample_sniffs_like_the_data_cut_after_its_lines() {
    let data = b"a;b\n1;2\n3;4\nx,y,z,w\n";
    let cut = b"a;b\n1;2\n3;4\n";
    let mut by_records = Sniffer::new();
    by_records.sample_size(SampleSize::Records(3));
    let mut all = Sniffer::new();
    all.sample_size(SampleSize::All);
    let r1 = by_records.sniff_reader(data).unwrap();
    let r2 = all.sniff_reader(cut).unwrap();
    assert_eq!(r1, r2);
    assert_eq!(r1.dialect.delimiter, b';');
}

#[test]
fn quoted_field_counts_read_each_line_after_the_last() {
    let lines = lines_of(&["a,\"b,c\",d", "e,f"]);
    let counts = quoted_field_counts(&lines, b',', b'"').unwrap();
    assert_eq!(counts, vec![2, 1]);
}

#[test]
fn quoted_field_counts_of_no_lines_are_empty() {
    let counts = quoted_field_counts(&Vec::new(), b',', b'"').unwrap();
    assert!(counts.is_empty());
}

#[test]
fn a_candidate_delimiter_of_several_bytes_is_not_counted() {
    let mut sniffer = Sniffer::new();
    let msg = failure_message(sniffer.sniff_reader("\"a\"§\"b\"\n\"c\"§\"d\"\n".as_bytes()));
    assert_eq!(msg, "invalid regex match: no delimiter found");
}

#[test]
fn a_known_unquoted_delimiter_depends_only_on_its_counts() {
    let mut s1 = Sniffer::new();
    s1.delimiter(b';').quote(Quote::Unquoted);
    let mut s2 = Sniffer::new();
    s2.delimiter(b';').quote(Quote::Unquoted);
    let r1 = s1.sniff_reader(b"a;b\nc;d\n").unwrap();
    let r2 = s2.sniff_reader(b"xyz;w\n;q\n").unwrap();
    assert_eq!(r1, r2);
    assert_eq!(format!("{:?}", s1), format!("{:?}", s2));
}

#[test]
fn inferring_the_delimiter_depends_only_on_the_counts_per_line() {
    let mut s1 = Sniffer::new();
    let mut s2 = Sniffer::new();
    let r1 = s1.sniff_reader(b"a,b\nc,d\ne,f\n").unwrap();
    let r2 = s2.sniff_reader(b"ab,\n,cd\nf,e\n").unwrap();
    assert_eq!(r1, r2);
    assert_eq!(r1.dialect.delimiter, b',');
    assert_eq!(format!("{:?}", s1), format!("{:?}", s2));
}
