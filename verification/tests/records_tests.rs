use jf_score::Error;
use jf_score::records::parse;

#[test]
fn parses_multiple_records() {
    let recs = parse(b">r1\nACGT\nTTTT\n>r2\nGG\n").unwrap();
    assert_eq!(recs.len(), 2);
    assert_eq!(recs[0].id, b"r1".to_vec());
    assert_eq!(recs[0].symbols, b"ACGTTTTT".to_vec());
    assert_eq!(recs[1].id, b"r2".to_vec());
    assert_eq!(recs[1].symbols, b"GG".to_vec());
}

#[test]
fn body_lines_concatenate_verbatim() {
    // No trimming and no case folding.
    let recs = parse(b">x\nacG t\nT*\n").unwrap();
    assert_eq!(recs[0].symbols, b"acG tT*".to_vec());
}

#[test]
fn blank_lines_are_skipped() {
    let recs = parse(b">r1\n\nAC\n\n\nGT\n").unwrap();
    assert_eq!(recs.len(), 1);
    assert_eq!(recs[0].symbols, b"ACGT".to_vec());
}

#[test]
fn last_record_flushes_without_trailing_newline() {
    let recs = parse(b">r1\nACGT").unwrap();
    assert_eq!(recs.len(), 1);
    assert_eq!(recs[0].id, b"r1".to_vec());
    assert_eq!(recs[0].symbols, b"ACGT".to_vec());
}

#[test]
fn record_may_have_empty_symbols() {
    let recs = parse(b">a\n>b\nXX\n").unwrap();
    assert_eq!(recs.len(), 2);
    assert_eq!(recs[0].id, b"a".to_vec());
    assert_eq!(recs[0].symbols, b"".to_vec());
    assert_eq!(recs[1].symbols, b"XX".to_vec());
}

#[test]
fn text_before_first_marker_is_dropped() {
    let recs = parse(b"junk\n>r1\nAC\n").unwrap();
    assert_eq!(recs.len(), 1);
    assert_eq!(recs[0].id, b"r1".to_vec());
    assert_eq!(recs[0].symbols, b"AC".to_vec());
}

#[test]
fn buffer_without_marker_is_a_format_error() {
    assert_eq!(parse(b"just text\nmore text\n").unwrap_err(), Error::FormatError);
    assert_eq!(parse(b"").unwrap_err(), Error::FormatError);
    assert_eq!(parse(b"\n\n").unwrap_err(), Error::FormatError);
}
