use rusty_gopher::directoryentry::{ChildInfo, ChildKind};
use rusty_gopher::errors::GopherError;
use rusty_gopher::gophermap::Gophermap;
use rusty_gopher::gophertype::GopherType;
use rusty_gopher::request::{check_selector, error_entry, parse_input, plan_request, GopherMessage};

#[test]
fn empty_request_line_lists_the_root() {
    match parse_input("\r\n").unwrap() {
        GopherMessage::ListDir(sel) => assert_eq!(sel, "/"),
        GopherMessage::SearchDir(_, _) => panic!("expected a plain listing request"),
    }
}

#[test]
fn selector_only_request_lists_that_selector() {
    match parse_input("/docs\r\n").unwrap() {
        GopherMessage::ListDir(sel) => assert_eq!(sel, "/docs"),
        GopherMessage::SearchDir(_, _) => panic!("expected a plain listing request"),
    }
}

#[test]
fn tab_splits_selector_and_query() {
    match parse_input("/docs\tfoo and bar\r\n").unwrap() {
        GopherMessage::SearchDir(sel, q) => {
            assert_eq!(sel, "/docs");
            assert_eq!(q, "foo and bar");
        },
        GopherMessage::ListDir(_) => panic!("expected a search request"),
    }
}

#[test]
fn blank_request_without_crlf_is_invalid() {
    assert_eq!(parse_input("").unwrap_err(), GopherError::InvalidRequest);
    assert_eq!(parse_input("\n").unwrap_err(), GopherError::InvalidRequest);
}

#[test]
fn selectors_with_parent_segments_are_rejected() {
    assert_eq!(check_selector(".."), Err(GopherError::PathEscape));
    assert_eq!(check_selector("../etc"), Err(GopherError::PathEscape));
    assert_eq!(check_selector("/docs/../secret"), Err(GopherError::PathEscape));
    assert_eq!(check_selector("a/b/.."), Err(GopherError::PathEscape));
}

#[test]
fn honest_selectors_pass_the_escape_check() {
    assert!(check_selector("/").is_ok());
    assert!(check_selector("/docs/a.txt").is_ok());
    assert!(check_selector("a..b").is_ok());
    assert!(check_selector("...").is_ok());
    assert!(check_selector("").is_ok());
}

#[test]
fn plan_keeps_a_well_formed_query() {
    let plan = plan_request("/docs\tfoo and bar\r\n").unwrap();
    assert_eq!(plan.selector, "/docs");
    let q = plan.query.expect("query should compile");
    assert!(q.matches("foo bar"));
    assert!(!q.matches("foo"));
}

#[test]
fn plan_degrades_a_broken_query_to_no_filter() {
    let plan = plan_request("/docs\tfoo and\r\n").unwrap();
    assert_eq!(plan.selector, "/docs");
    assert!(plan.query.is_none());
}

#[test]
fn plan_rejects_an_escaping_selector() {
    assert_eq!(
        plan_request("/docs/../secret\r\n").unwrap_err(),
        GopherError::PathEscape
    );
    assert_eq!(
        plan_request("../x\tquery\r\n").unwrap_err(),
        GopherError::PathEscape
    );
}

#[test]
fn error_entry_renders_a_single_error_line() {
    let e = error_entry(&GopherError::DirectoryUnreadable);
    assert_eq!(e.gtype, GopherType::Error);
    assert_eq!(e.description, "directory unreadable");
    assert_eq!(e.serialize(), "3directory unreadable\t\t\t0\r\n");
}

#[test]
fn error_messages_name_each_failure() {
    assert_eq!(GopherError::MalformedEntry.message(), "malformed directory entry");
    assert_eq!(GopherError::InvalidPort.message(), "invalid port number");
    assert_eq!(GopherError::InvalidQuery.message(), "invalid search query");
    assert_eq!(
        GopherError::PathEscape.message(),
        "selector escapes the content root"
    );
    assert_eq!(GopherError::InvalidRequest.message(), "invalid request");
}

#[test]
fn filtered_listing_preserves_order() {
    let children = vec![
        ChildInfo {
            name: "alpha notes".to_string(),
            selector: "/alpha".to_string(),
            kind: ChildKind::Directory,
            extension: "".to_string(),
        },
        ChildInfo {
            name: "beta notes".to_string(),
            selector: "/beta".to_string(),
            kind: ChildKind::Directory,
            extension: "".to_string(),
        },
        ChildInfo {
            name: "alpha pictures".to_string(),
            selector: "/pics".to_string(),
            kind: ChildKind::Directory,
            extension: "".to_string(),
        },
    ];
    let map = Gophermap::from_directory(&children, "example.org", 70);
    let plan = plan_request("/\talpha\r\n").unwrap();
    let q = plan.query.expect("query should compile");
    let filtered = map.filtered(&q);
    assert_eq!(filtered.entries.len(), 2);
    assert_eq!(filtered.entries[0].description, "alpha notes");
    assert_eq!(filtered.entries[1].description, "alpha pictures");
}
