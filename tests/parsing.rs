use logfsm::{parse, ErrorKind, ParseError, Record};

fn value<'a>(record: &'a Record, key: &str) -> Option<&'a str> {
    record.attributes.get(key).map(|v| v.as_str())
}

#[test]
fn quoted_and_plain_values() {
    let parsed = parse("1234  cat=\"hat\", boat=goat\n");
    assert_eq!(parsed.records.len(), 1);
    let r = &parsed.records[0];
    assert_eq!(r.timestamp, 1234);
    assert_eq!(r.attributes.len(), 2);
    assert_eq!(value(r, "cat"), Some("hat"));
    assert_eq!(value(r, "boat"), Some("goat"));
    assert!(parsed.errors.is_empty());
}

#[test]
fn plain_values() {
    let parsed = parse("1235  mem=23234M, cpu=2131\n");
    assert_eq!(parsed.records.len(), 1);
    let r = &parsed.records[0];
    assert_eq!(r.timestamp, 1235);
    assert_eq!(r.attributes.len(), 2);
    assert_eq!(value(r, "mem"), Some("23234M"));
    assert_eq!(value(r, "cpu"), Some("2131"));
    assert!(parsed.errors.is_empty());
}

#[test]
fn non_digit_timestamp_is_reported_and_skipped() {
    let parsed = parse("abc  key=val\n");
    assert!(parsed.records.is_empty());
    assert_eq!(
        parsed.errors,
        vec![
            ParseError { position: 0, kind: ErrorKind::UnexpectedCharacter('a') },
            ParseError { position: 1, kind: ErrorKind::UnexpectedCharacter('b') },
            ParseError { position: 2, kind: ErrorKind::UnexpectedCharacter('c') },
            ParseError { position: 3, kind: ErrorKind::MalformedTimestamp },
        ]
    );
}

#[test]
fn malformed_line_does_not_stop_the_next() {
    let parsed = parse("abc  key=val\n1236  a=b\n");
    assert_eq!(parsed.records.len(), 1);
    assert_eq!(parsed.records[0].timestamp, 1236);
    assert_eq!(value(&parsed.records[0], "a"), Some("b"));
}

#[test]
fn quoted_value_keeps_equals_sign() {
    let parsed = parse("7  expr=\"a=b=c\"\n");
    assert_eq!(parsed.records.len(), 1);
    assert_eq!(value(&parsed.records[0], "expr"), Some("a=b=c"));
}

#[test]
fn comma_inside_quotes_is_kept() {
    let parsed = parse("7  k=\"a,b\"\n");
    assert_eq!(parsed.records.len(), 1);
    assert_eq!(parsed.records[0].attributes.len(), 1);
    assert_eq!(value(&parsed.records[0], "k"), Some("a,b"));
    assert!(parsed.errors.is_empty());
}

#[test]
fn comma_and_equals_inside_quotes_are_kept() {
    let parsed = parse("1234  k=\"a,b=c\", m=n\n2  c=d\n");
    assert_eq!(parsed.records.len(), 2);
    assert_eq!(parsed.records[0].timestamp, 1234);
    assert_eq!(parsed.records[0].attributes.len(), 2);
    assert_eq!(value(&parsed.records[0], "k"), Some("a,b=c"));
    assert_eq!(value(&parsed.records[0], "m"), Some("n"));
    assert_eq!(parsed.records[1].timestamp, 2);
    assert_eq!(value(&parsed.records[1], "c"), Some("d"));
}

#[test]
fn quoted_comma_line_then_blank_lines() {
    let parsed = parse("1  k=\"a,b\"\n\n\n2  c=d\n");
    assert_eq!(parsed.records.len(), 2);
    assert_eq!(value(&parsed.records[0], "k"), Some("a,b"));
    assert_eq!(parsed.records[1].timestamp, 2);
    assert_eq!(value(&parsed.records[1], "c"), Some("d"));
}

#[test]
fn empty_quoted_value() {
    let parsed = parse("8  k=\"\", m=n\n");
    assert_eq!(parsed.records.len(), 1);
    assert_eq!(value(&parsed.records[0], "k"), Some(""));
    assert_eq!(value(&parsed.records[0], "m"), Some("n"));
}

#[test]
fn key_without_value_yields_no_record() {
    assert!(parse("1234  key\n").records.is_empty());
    assert!(parse("1234  a=b, key\n").records.is_empty());
}

#[test]
fn blank_lines_between_lines() {
    let parsed = parse("1  a=b\n\n\n\n2  c=d\n");
    assert_eq!(parsed.records.len(), 2);
    assert_eq!(parsed.records[0].timestamp, 1);
    assert_eq!(parsed.records[1].timestamp, 2);
    assert!(parsed.errors.is_empty());
}

#[test]
fn only_blank_lines() {
    let parsed = parse("\n\n\n");
    assert!(parsed.records.is_empty());
    assert!(parsed.errors.is_empty());
}

#[test]
fn empty_input() {
    let parsed = parse("");
    assert!(parsed.records.is_empty());
    assert!(parsed.errors.is_empty());
}

#[test]
fn two_lines_match_each_line_alone() {
    let first = "1234  cat=\"hat\", boat=goat\n";
    let second = "1235  mem=23234M, cpu=2131\n";
    let both = parse(&format!("{}{}", first, second));
    let a = parse(first);
    let b = parse(second);
    assert_eq!(both.records.len(), 2);
    for (joined, alone) in both.records.iter().zip(a.records.iter().chain(b.records.iter())) {
        assert_eq!(joined.timestamp, alone.timestamp);
        assert_eq!(joined.attributes.len(), alone.attributes.len());
        for key in ["cat", "boat", "mem", "cpu"] {
            assert_eq!(value(joined, key), value(alone, key));
        }
    }
}

#[test]
fn line_without_newline_is_not_finalized() {
    assert!(parse("1234  a=b").records.is_empty());
}

#[test]
fn unicode_values() {
    let parsed = parse("\n1234  pretty=きれいな, mem=23234M\n");
    assert_eq!(parsed.records.len(), 1);
    assert_eq!(value(&parsed.records[0], "pretty"), Some("きれいな"));
}

#[test]
fn first_occurrence_of_a_key_prevails() {
    let parsed = parse("5  k=first, k=second\n");
    assert_eq!(parsed.records.len(), 1);
    assert_eq!(parsed.records[0].attributes.len(), 1);
    assert_eq!(value(&parsed.records[0], "k"), Some("first"));
}

#[test]
fn timestamp_too_large() {
    let parsed = parse("99999999999999999999  a=b\n");
    assert!(parsed.records.is_empty());
    assert_eq!(
        parsed.errors,
        vec![ParseError { position: 20, kind: ErrorKind::MalformedTimestamp }]
    );
}

#[test]
fn largest_timestamp() {
    let parsed = parse("9223372036854775807  a=b\n");
    assert_eq!(parsed.records.len(), 1);
    assert_eq!(parsed.records[0].timestamp, i64::MAX);
}

#[test]
fn unexpected_character_before_timestamp() {
    let parsed = parse("x12  a=b\n");
    assert_eq!(parsed.records.len(), 1);
    assert_eq!(parsed.records[0].timestamp, 12);
    assert_eq!(
        parsed.errors,
        vec![ParseError { position: 0, kind: ErrorKind::UnexpectedCharacter('x') }]
    );
}
