use rusty_gopher::directoryentry::{ChildInfo, ChildKind, DirectoryEntry};
use rusty_gopher::errors::GopherError;
use rusty_gopher::gophertype::GopherType;

#[test]
fn serialize_emits_the_canonical_wire_line() {
    let mut e = DirectoryEntry::new();
    e.gtype = GopherType::File;
    e.description = "About internet Gopher".to_string();
    e.selector = "Stuff:About us".to_string();
    e.host = "rawBits.micro.umn.edu".to_string();
    e.port = 7070;
    assert_eq!(
        e.serialize(),
        "0About internet Gopher\tStuff:About us\trawBits.micro.umn.edu\t7070\r\n"
    );
}

#[test]
fn parse_then_serialize_round_trips() {
    let line = "1some directory\t/some/path\texample.org\t70\r\n";
    let e = DirectoryEntry::from_string(line).unwrap();
    assert_eq!(e.gtype, GopherType::Directory);
    assert_eq!(e.description, "some directory");
    assert_eq!(e.selector, "/some/path");
    assert_eq!(e.host, "example.org");
    assert_eq!(e.port, 70);
    assert_eq!(e.serialize(), line);
}

#[test]
fn serialize_then_parse_round_trips() {
    let mut e = DirectoryEntry::new();
    e.gtype = GopherType::Gif;
    e.description = "a picture".to_string();
    e.selector = "/pics/a.gif".to_string();
    e.host = "localhost".to_string();
    e.port = 65535;
    let back = DirectoryEntry::from_string(e.serialize().as_str()).unwrap();
    assert_eq!(back, e);
}

#[test]
fn parse_accepts_a_line_without_terminator() {
    let e = DirectoryEntry::from_string("9file.bin\t/file.bin\thost\t70").unwrap();
    assert_eq!(e.gtype, GopherType::BinaryFile);
    assert_eq!(e.port, 70);
}

#[test]
fn parse_degrades_unknown_type_codes_to_error() {
    let e = DirectoryEntry::from_string("zweird\t/w\thost\t70\r\n").unwrap();
    assert_eq!(e.gtype, GopherType::Error);
    assert_eq!(e.description, "weird");
}

#[test]
fn parse_rejects_too_few_fields() {
    assert_eq!(
        DirectoryEntry::from_string("0only a description\r\n"),
        Err(GopherError::MalformedEntry)
    );
    assert_eq!(
        DirectoryEntry::from_string("0desc\tsel\thost"),
        Err(GopherError::MalformedEntry)
    );
    assert_eq!(DirectoryEntry::from_string(""), Err(GopherError::MalformedEntry));
}

#[test]
fn parse_rejects_bad_ports() {
    assert_eq!(
        DirectoryEntry::from_string("0desc\tsel\thost\t\r\n"),
        Err(GopherError::InvalidPort)
    );
    assert_eq!(
        DirectoryEntry::from_string("0desc\tsel\thost\t70a\r\n"),
        Err(GopherError::InvalidPort)
    );
    assert_eq!(
        DirectoryEntry::from_string("0desc\tsel\thost\t65536\r\n"),
        Err(GopherError::InvalidPort)
    );
    let e = DirectoryEntry::from_string("0desc\tsel\thost\t65535\r\n").unwrap();
    assert_eq!(e.port, 65535);
}

#[test]
fn from_dir_entry_classifies_children() {
    let dir = ChildInfo {
        name: "docs".to_string(),
        selector: "/docs".to_string(),
        kind: ChildKind::Directory,
        extension: "".to_string(),
    };
    let e = DirectoryEntry::from_dir_entry(&dir, "example.org", 70).unwrap();
    assert_eq!(e.gtype, GopherType::Directory);
    assert_eq!(e.description, "docs");
    assert_eq!(e.selector, "/docs");
    assert_eq!(e.host, "example.org");
    assert_eq!(e.port, 70);

    let txt = ChildInfo {
        name: "readme.txt".to_string(),
        selector: "/readme.txt".to_string(),
        kind: ChildKind::Regular,
        extension: "txt".to_string(),
    };
    assert_eq!(
        DirectoryEntry::from_dir_entry(&txt, "example.org", 70).unwrap().gtype,
        GopherType::File
    );

    let special = ChildInfo {
        name: "pipe".to_string(),
        selector: "/pipe".to_string(),
        kind: ChildKind::Other,
        extension: "".to_string(),
    };
    assert_eq!(
        DirectoryEntry::from_dir_entry(&special, "example.org", 70).unwrap().gtype,
        GopherType::Error
    );
}

#[test]
fn from_dir_entry_rejects_delimiters_in_names() {
    let bad = ChildInfo {
        name: "with\ttab".to_string(),
        selector: "/x".to_string(),
        kind: ChildKind::Regular,
        extension: "".to_string(),
    };
    assert_eq!(
        DirectoryEntry::from_dir_entry(&bad, "example.org", 70),
        Err(GopherError::MalformedEntry)
    );
}
