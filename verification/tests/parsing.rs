use mcavoy::parser::parse_records;
use mcavoy::record::{ParseError, Record};

fn lines_of(xs: &[&str]) -> Vec<String> {
    let mut v: Vec<String> = Vec::new();
    for x in xs {
        v.push(x.to_string());
    }
    v
}

fn fields(r: &Record) -> (&str, &str, &str) {
    (r.identifier.as_str(), r.description.as_str(), r.sequence.as_str())
}

#[test]
fn two_records_with_description() {
    let input = lines_of(&[">seq1 first record", "ACGT", "ACGT", ">seq2", "TTTT"]);
    let recs = parse_records(&input).unwrap();
    assert_eq!(recs.len(), 2);
    assert_eq!(fields(&recs[0]), ("seq1", "first record", "ACGTACGT"));
    assert_eq!(fields(&recs[1]), ("seq2", "", "TTTT"));
}

#[test]
fn header_alone_gives_empty_sequence() {
    let input = lines_of(&[">onlyheader"]);
    let recs = parse_records(&input).unwrap();
    assert_eq!(recs.len(), 1);
    assert_eq!(fields(&recs[0]), ("onlyheader", "", ""));
}

#[test]
fn consecutive_headers() {
    let input = lines_of(&[">first", ">second", "ACGT"]);
    let recs = parse_records(&input).unwrap();
    assert_eq!(recs.len(), 2);
    assert_eq!(fields(&recs[0]), ("first", "", ""));
    assert_eq!(fields(&recs[1]), ("second", "", "ACGT"));
}

#[test]
fn bare_marker_is_malformed() {
    let input = lines_of(&[">"]);
    let r = parse_records(&input);
    assert_eq!(r.unwrap_err(), ParseError::MalformedHeader { line: 1 });
}

#[test]
fn marker_followed_by_whitespace_is_malformed() {
    let input = lines_of(&["> description without identifier"]);
    let r = parse_records(&input);
    assert_eq!(r.unwrap_err(), ParseError::MalformedHeader { line: 1 });
}

#[test]
fn malformed_header_reports_its_line() {
    let input = lines_of(&[">ok", "ACGT", ">"]);
    let r = parse_records(&input);
    assert_eq!(r.unwrap_err(), ParseError::MalformedHeader { line: 3 });
}

#[test]
fn sequence_before_any_header_is_orphan() {
    let input = lines_of(&["ACGT", ">late"]);
    let r = parse_records(&input);
    assert_eq!(r.unwrap_err(), ParseError::OrphanSequenceData { line: 1 });
}

#[test]
fn blank_lines_inside_a_block_contribute_nothing() {
    let input = lines_of(&[">a", "AC", "", "   ", "GT"]);
    let recs = parse_records(&input).unwrap();
    assert_eq!(recs.len(), 1);
    assert_eq!(fields(&recs[0]), ("a", "", "ACGT"));
}

#[test]
fn blank_lines_before_first_header_are_ignored() {
    let input = lines_of(&["", "  \t", ">a", "ACGT"]);
    let recs = parse_records(&input).unwrap();
    assert_eq!(recs.len(), 1);
    assert_eq!(fields(&recs[0]), ("a", "", "ACGT"));
}

#[test]
fn trailing_whitespace_is_trimmed() {
    let input = lines_of(&[">id  one two  ", "ACGT\r"]);
    let recs = parse_records(&input).unwrap();
    assert_eq!(recs.len(), 1);
    assert_eq!(fields(&recs[0]), ("id", "one two", "ACGT"));
}

#[test]
fn leading_whitespace_of_sequence_lines_is_kept() {
    let input = lines_of(&[">a", "  AC", "GT"]);
    let recs = parse_records(&input).unwrap();
    assert_eq!(fields(&recs[0]), ("a", "", "  ACGT"));
}

#[test]
fn tab_splits_identifier_from_description() {
    let input = lines_of(&[">x\tsome words"]);
    let recs = parse_records(&input).unwrap();
    assert_eq!(fields(&recs[0]), ("x", "some words", ""));
}

#[test]
fn empty_input_gives_no_records() {
    let input: Vec<String> = Vec::new();
    let recs = parse_records(&input).unwrap();
    assert_eq!(recs.len(), 0);
}

#[test]
fn record_count_matches_header_count() {
    let input = lines_of(&[">a", "AC", ">b", ">c", "G", "T", ">d x", ""]);
    let recs = parse_records(&input).unwrap();
    assert_eq!(recs.len(), 4);
}

#[test]
fn records_keep_header_order() {
    let input = lines_of(&[">b", "T", ">a", "G", ">c"]);
    let recs = parse_records(&input).unwrap();
    let ids: Vec<&str> = recs.iter().map(|r| r.identifier.as_str()).collect();
    assert_eq!(ids, vec!["b", "a", "c"]);
}

#[test]
fn sequence_is_concatenation_without_separator() {
    let input = lines_of(&[">a", "AAA", "CC", "G"]);
    let recs = parse_records(&input).unwrap();
    assert_eq!(recs[0].sequence, "AAACCG");
}

#[test]
fn failure_returns_no_partial_records() {
    let input = lines_of(&[">good", "ACGT", "", ">", "TT"]);
    let r = parse_records(&input);
    assert_eq!(r.unwrap_err(), ParseError::MalformedHeader { line: 4 });
}
