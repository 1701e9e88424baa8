use cdcl_sat::clause::supported_literals;
use cdcl_sat::dimacs::{parse_dimacs, parse_int_word, split_words};

#[test]
fn reads_header_comments_and_clauses() {
    let text = b"c a comment\np cnf 3 2\n1 -2 0\n  2 3 0\n";
    assert_eq!(parse_dimacs(text), vec![vec![1, -2], vec![2, 3]]);
}

#[test]
fn clause_without_terminator_is_kept() {
    assert_eq!(parse_dimacs(b"1 2 0 -3 4"), vec![vec![1, 2], vec![-3, 4]]);
}

#[test]
fn clauses_span_lines_and_surplus_zeros_are_ignored() {
    assert_eq!(parse_dimacs(b"0 0 1\n2 0 0\r\n-1 0"), vec![vec![1, 2], vec![-1]]);
}

#[test]
fn malformed_words_are_skipped() {
    assert_eq!(parse_dimacs(b"1 x 2 3y +4 0\n"), vec![vec![1, 2, 4]]);
}

#[test]
fn empty_text_has_no_clauses() {
    assert!(parse_dimacs(b"").is_empty());
    assert!(parse_dimacs(b"c only a comment\n\n").is_empty());
}

#[test]
fn integer_words() {
    assert_eq!(parse_int_word(&b"-17".to_vec()), Some(-17));
    assert_eq!(parse_int_word(&b"+8".to_vec()), Some(8));
    assert_eq!(parse_int_word(&b"2147483647".to_vec()), Some(i32::MAX));
    assert_eq!(parse_int_word(&b"-2147483648".to_vec()), Some(i32::MIN));
    assert_eq!(parse_int_word(&b"2147483648".to_vec()), None);
    assert_eq!(parse_int_word(&b"-".to_vec()), None);
    assert_eq!(parse_int_word(&b"1-".to_vec()), None);
}

#[test]
fn words_split_on_white_space() {
    assert_eq!(split_words(&b" a\tbc  d ".to_vec()), vec![b"a".to_vec(), b"bc".to_vec(), b"d".to_vec()]);
}

#[test]
fn smallest_literal_is_rejected() {
    let clauses = parse_dimacs(b"1 -2147483648 0");
    assert!(!supported_literals(&clauses));
    assert!(supported_literals(&parse_dimacs(b"1 -2147483647 0")));
}

#[test]
fn unicode_white_space_separates_words() {
    assert_eq!(parse_dimacs("1\u{a0}2\u{3000}0\n".as_bytes()), vec![vec![1, 2]]);
    assert_eq!(parse_dimacs("\u{2003}c comment\n-3\u{85}4 0".as_bytes()), vec![vec![-3, 4]]);
    // a letter from outside ASCII that is not white space stays inside its word
    assert_eq!(parse_dimacs("1\u{e9} 2 0".as_bytes()), vec![vec![2]]);
}
