use jf_score::Error;
use jf_score::distance::Kernel;
use jf_score::pipeline::DEFAULT_K;
use jf_score::pipeline::parse_k;
use jf_score::pipeline::run;
use jf_score::records::parse;
use jf_score::score::score_all;

#[test]
fn ranks_closest_query_first() {
    let ids = run(Kernel::Scalar, b">ref\nACGT-", b">q1\nACGT-\n>q2\nACTT-", 2).unwrap();
    assert_eq!(ids, vec![b"q1".to_vec(), b"q2".to_vec()]);
    let reference = parse(b">ref\nACGT-").unwrap();
    let queries = parse(b">q1\nACGT-\n>q2\nACTT-").unwrap();
    let bag = score_all(Kernel::Scalar, &reference[0].symbols, &queries);
    assert_eq!(bag[0].distance, 0);
    assert_eq!(bag[1].distance, 1);
}

#[test]
fn every_kernel_ranks_alike() {
    for kernel in [Kernel::Wide, Kernel::Narrow, Kernel::Scalar] {
        let ids = run(kernel, b">ref\nACGT-", b">q1\nACTT-\n>q2\nACGT-", 2).unwrap();
        assert_eq!(ids, vec![b"q2".to_vec(), b"q1".to_vec()]);
    }
}

#[test]
fn distance_covers_only_the_shared_prefix() {
    let ids = run(Kernel::Scalar, b">ref\nACGTACGT", b">q1\nACGT", 20).unwrap();
    assert_eq!(ids, vec![b"q1".to_vec()]);
    // The four overlapping positions agree, so the distance is zero.
    let reference = parse(b">ref\nACGTACGT").unwrap();
    let queries = parse(b">q1\nACGT").unwrap();
    let bag = score_all(Kernel::Scalar, &reference[0].symbols, &queries);
    assert_eq!(bag.len(), 1);
    assert_eq!(bag[0].distance, 0);
}

#[test]
fn k_beyond_query_count_ranks_all_queries() {
    let ids = run(Kernel::Scalar, b">ref\nACGT", b">q1\nACGT\n>q2\nTTTT", 50).unwrap();
    assert_eq!(ids.len(), 2);
    assert_eq!(ids[0], b"q1".to_vec());
    assert_eq!(ids[1], b"q2".to_vec());
}

#[test]
fn reference_without_marker_aborts_with_format_error() {
    let r = run(Kernel::Scalar, b"no marker here\n", b">q1\nACGT", 2);
    assert_eq!(r.unwrap_err(), Error::FormatError);
}

#[test]
fn query_file_without_marker_aborts_with_format_error() {
    let r = run(Kernel::Scalar, b">ref\nACGT", b"plain text\n", 2);
    assert_eq!(r.unwrap_err(), Error::FormatError);
}

#[test]
fn only_the_first_reference_record_is_used() {
    // The second reference record would match q1 exactly; it is ignored.
    let ids = run(Kernel::Scalar, b">r1\nAAAA\n>r2\nTTTT", b">q1\nTTTT\n>q2\nAAAT", 2).unwrap();
    assert_eq!(ids, vec![b"q2".to_vec(), b"q1".to_vec()]);
}

#[test]
fn parse_k_reads_a_decimal_count() {
    assert_eq!(parse_k(b"17"), 17);
    assert_eq!(parse_k(b"0"), 0);
    assert_eq!(parse_k(b"+5"), 5);
    assert_eq!(parse_k(b"007"), 7);
}

#[test]
fn parse_k_falls_back_to_the_default() {
    assert_eq!(DEFAULT_K, 20);
    assert_eq!(parse_k(b""), 20);
    assert_eq!(parse_k(b"abc"), 20);
    assert_eq!(parse_k(b"-3"), 20);
    assert_eq!(parse_k(b"+"), 20);
    assert_eq!(parse_k(b"1 "), 20);
    assert_eq!(parse_k(b"12.5"), 20);
    assert_eq!(parse_k(b"99999999999999999999999999"), 20);
}
