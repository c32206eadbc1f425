use kmer_sim::error::PublicError;
use kmer_sim::parse::{parse_count, parse_hash_counts, parse_tsv, record_from_dump};

#[test]
fn parse_count_plain_digits() {
    assert_eq!(parse_count("0"), Some(0));
    assert_eq!(parse_count("123"), Some(123));
    assert_eq!(parse_count("007"), Some(7));
}

#[test]
fn parse_count_leading_plus() {
    assert_eq!(parse_count("+5"), Some(5));
    assert_eq!(parse_count("+0"), Some(0));
}

#[test]
fn parse_count_rejects_bad_text() {
    assert_eq!(parse_count(""), None);
    assert_eq!(parse_count("+"), None);
    assert_eq!(parse_count("12a"), None);
    assert_eq!(parse_count("-3"), None);
    assert_eq!(parse_count(" 4"), None);
}

#[test]
fn parse_count_rejects_overflow() {
    assert_eq!(parse_count("99999999999999999999999999999999"), None);
    let max = format!("{}", usize::MAX);
    assert_eq!(parse_count(&max), Some(usize::MAX));
}

#[test]
fn parse_tsv_rows_and_fields() {
    let rows = parse_tsv("s1\tf1\ns2\tf2\n");
    assert_eq!(rows.len(), 2);
    assert_eq!(rows[0], vec!["s1".to_string(), "f1".to_string()]);
    assert_eq!(rows[1], vec!["s2".to_string(), "f2".to_string()]);
}

#[test]
fn parse_tsv_tolerates_trailing_newlines_and_extra_fields() {
    let rows = parse_tsv("s1\tf1\textra\n\n\n");
    assert_eq!(rows.len(), 1);
    assert_eq!(rows[0], vec!["s1".to_string(), "f1".to_string(), "extra".to_string()]);
    let empty = parse_tsv("");
    assert_eq!(empty.len(), 1);
    assert_eq!(empty[0], vec!["".to_string()]);
}

#[test]
fn parse_hash_counts_totals_and_lookup() {
    let (total, table) = parse_hash_counts("a\t2\nb\t3\n").unwrap();
    assert_eq!(total, 5);
    assert_eq!(table.len(), 2);
    assert_eq!(table.get(&"a".to_string()), Some(2));
    assert_eq!(table.get(&"b".to_string()), Some(3));
    assert_eq!(table.get(&"c".to_string()), None);
}

#[test]
fn parse_hash_counts_skips_empty_lines() {
    let (total, table) = parse_hash_counts("\na\t1\n\nb\t4\n\n").unwrap();
    assert_eq!(total, 5);
    assert_eq!(table.len(), 2);
}

#[test]
fn parse_hash_counts_empty_dump() {
    let (total, table) = parse_hash_counts("").unwrap();
    assert_eq!(total, 0);
    assert_eq!(table.len(), 0);
}

#[test]
fn parse_hash_counts_ignores_extra_fields() {
    let (total, table) = parse_hash_counts("a\t2\tignored\n").unwrap();
    assert_eq!(total, 2);
    assert_eq!(table.get(&"a".to_string()), Some(2));
}

#[test]
fn parse_hash_counts_rejects_short_row() {
    let err = parse_hash_counts("justonefield\n").unwrap_err();
    assert!(err.is_data_error());
}

#[test]
fn parse_hash_counts_rejects_bad_count() {
    let err = parse_hash_counts("a\tnotanumber\n").unwrap_err();
    assert!(err.is_data_error());
}

#[test]
fn parse_hash_counts_last_duplicate_wins() {
    let (total, table) = parse_hash_counts("a\t2\na\t3\n").unwrap();
    assert_eq!(table.len(), 1);
    assert_eq!(table.get(&"a".to_string()), Some(3));
    assert_eq!(total, 3);
}

#[test]
fn parse_hash_counts_duplicate_keeps_total_consistent() {
    let (total, table) = parse_hash_counts("a\t2\nb\t5\na\t3\n").unwrap();
    assert_eq!(table.len(), 2);
    assert_eq!(table.get(&"a".to_string()), Some(3));
    assert_eq!(table.get(&"b".to_string()), Some(5));
    assert_eq!(total, 8);
}

#[test]
fn parse_hash_counts_rejects_total_overflow() {
    let dump = format!("a\t{}\nb\t1\n", usize::MAX);
    let err = parse_hash_counts(&dump).unwrap_err();
    assert!(err.is_data_error());
}

#[test]
fn record_from_dump_is_well_formed() {
    let rec = record_from_dump("f1".to_string(), "a\t2\nb\t3\n").unwrap();
    assert_eq!(rec.source_path, "f1".to_string());
    assert_eq!(rec.total_weight, 5);
    assert_eq!(rec.weights.get(&"b".to_string()), Some(3));
    let bad = record_from_dump("f1".to_string(), "a\tx\n");
    assert!(matches!(bad, Err(PublicError::DataError(_))));
}

#[test]
fn error_variant_predicates() {
    assert!(PublicError::DataError("d".to_string()).is_data_error());
    assert!(PublicError::ApplicationError("a".to_string()).is_application_error());
    assert!(PublicError::IOError("i".to_string()).is_io_error());
    assert!(!PublicError::IOError("i".to_string()).is_data_error());
}
