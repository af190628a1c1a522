use csv_scout::metadata::{Dialect, Metadata, Quote};
use csv_scout::{SampleSize, Sniffer};

fn sniff_all(data: &str) -> Metadata {
    let mut sniffer = Sniffer::new();
    sniffer.sample_size(SampleSize::All);
    sniffer.sniff_reader(data.as_bytes()).unwrap()
}

#[test]
fn test_double_quote() {
    let data = "\"Name\",\"Age\",\"City\"\n\"Alice\",\"30\",\"New York\"\n\"Bob\",\"25\",\"Los Angeles\"\n\"Carol\",\"41\",\"Chicago\"\n";
    let metadata = sniff_all(data);
    assert_eq!(
        metadata,
        Metadata {
            dialect: Dialect {
                delimiter: b',',
                quote: Quote::Quoted(b'"'),
            },
        }
    );
}

#[test]
fn test_most_fields_unquoted() {
    let data = "id,comment,score\n1,\"Hello, world\",10\n2,plain,20\n3,\"Yes, indeed\",30\n4,more,40\n";
    let metadata = sniff_all(data);
    assert_eq!(
        metadata,
        Metadata {
            dialect: Dialect {
                delimiter: b',',
                quote: Quote::Quoted(b'"'),
            },
        }
    );
}

#[test]
fn test_flaky_quote_detection() {
    let data = "a,b,c\n1,\"x\",2\n2,\"He said \"hi\" ok\",3\n3,\"y\",4\n";
    let metadata = sniff_all(data);
    assert_eq!(
        metadata,
        Metadata {
            dialect: Dialect {
                delimiter: b',',
                quote: Quote::Quoted(b'"'),
            },
        }
    );
}

// Quoted JSON cells hold colons, so that ',' and ':' follow quoted cells
// equally often; the lowest byte wins the tie, every time.
#[test]
fn test_colon_in_quoted_json_is_stable() {
    let data = "\"a\":\"b\",\"c\"\n\"d\":\"e\",\"f\"\n\"g\":\"h\",\"i\"\n";
    let expected = Metadata {
        dialect: Dialect {
            delimiter: b',',
            quote: Quote::Quoted(b'"'),
        },
    };
    for _ in 0..50 {
        let metadata = sniff_all(data);
        assert_eq!(metadata, expected);
    }
}

#[test]
fn test_multiline_quoted_field() {
    let data = "id,text,n\n1,\"line one\nline two\",5\n2,\"single\",6\n3,\"other\",7\n";
    let metadata = sniff_all(data);
    assert_eq!(
        metadata,
        Metadata {
            dialect: Dialect {
                delimiter: b',',
                quote: Quote::Quoted(b'"'),
            },
        }
    );
}
