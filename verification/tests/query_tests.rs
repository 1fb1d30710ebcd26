use rusty_gopher::errors::GopherError;
use rusty_gopher::query::Query;

#[test]
fn and_binds_tighter_than_or() {
    let q = Query::parse("foo and bar or boo and char").unwrap();
    assert!(q.matches("foo bar"));
    assert!(q.matches("boo char"));
    assert!(!q.matches("foo boo"));
}

#[test]
fn not_binds_tighter_than_and() {
    let q = Query::parse("foo and not bar or boo and char").unwrap();
    assert!(q.matches("foo"));
    assert!(!q.matches("foo bar"));
}

#[test]
fn single_term_is_a_substring_test() {
    let q = Query::parse("Gopher").unwrap();
    assert!(q.matches("About internet Gopher"));
    assert!(!q.matches("about internet gopher"));
}

#[test]
fn or_is_inclusive() {
    let q = Query::parse("alpha or beta").unwrap();
    assert!(q.matches("alpha"));
    assert!(q.matches("beta"));
    assert!(q.matches("alpha beta"));
    assert!(!q.matches("gamma"));
}

#[test]
fn not_negates_a_term() {
    let q = Query::parse("not alpha").unwrap();
    assert!(!q.matches("alpha"));
    assert!(q.matches("beta"));
}

#[test]
fn chained_ands_are_left_associative() {
    let q = Query::parse("a and b and c").unwrap();
    assert!(q.matches("c b a"));
    assert!(!q.matches("a b"));
}

#[test]
fn extra_spaces_between_tokens_are_ignored() {
    let q = Query::parse("foo   and  bar").unwrap();
    assert!(q.matches("bar foo"));
    assert!(!q.matches("foo"));
}

#[test]
fn operator_without_operands_is_invalid() {
    assert_eq!(Query::parse("and").unwrap_err(), GopherError::InvalidQuery);
    assert_eq!(Query::parse("foo and").unwrap_err(), GopherError::InvalidQuery);
    assert_eq!(Query::parse("not").unwrap_err(), GopherError::InvalidQuery);
    assert_eq!(Query::parse("foo bar").unwrap_err(), GopherError::InvalidQuery);
}

#[test]
fn empty_query_is_invalid() {
    assert_eq!(Query::parse("").unwrap_err(), GopherError::InvalidQuery);
    assert_eq!(Query::parse("   ").unwrap_err(), GopherError::InvalidQuery);
}

#[test]
fn keywords_are_case_sensitive() {
    // `AND` is not the operator keyword, so this is three terms in a row:
    // a malformed query.
    assert_eq!(Query::parse("foo AND bar").unwrap_err(), GopherError::InvalidQuery);
}
