use rusty_gopher::directoryentry::{ChildInfo, ChildKind, DirectoryEntry};
use rusty_gopher::gophermap::Gophermap;
use rusty_gopher::gophertype::GopherType;

#[test]
fn gophermap_test_from_str() {
    let teststr = format!("0About internet Gopher\tStuff:About us\trawBits.micro.umn.edu\t7070\r\n0About internet Gopher\tStuff:About us\trawBits.micro.umn.edu\t70\r\n");

    let mut entry = DirectoryEntry::new();
    entry.gtype = GopherType::from_str("0");
    entry.description = "About internet Gopher".to_string();
    entry.selector = "Stuff:About us".to_string();
    entry.host = "rawBits.micro.umn.edu".to_string();
    entry.port = 7070;

    let mut entry2 = DirectoryEntry::new();
    entry2.gtype = GopherType::from_str("0");
    entry2.description = "About internet Gopher".to_string();
    entry2.selector = "Stuff:About us".to_string();
    entry2.host = "rawBits.micro.umn.edu".to_string();
    entry2.port = 70;

    let (parsed_map, _skipped) = Gophermap::from_string(&teststr);
    assert_eq!(parsed_map.entries[0].gtype, entry.gtype);
    assert_eq!(parsed_map.entries[0].description, entry.description);
    assert_eq!(parsed_map.entries[0].selector, entry.selector);
    assert_eq!(parsed_map.entries[0].host, entry.host);
    assert_eq!(parsed_map.entries[0].port, entry.port);

    assert_eq!(parsed_map.entries[1].gtype, entry2.gtype);
    assert_eq!(parsed_map.entries[1].description, entry2.description);
    assert_eq!(parsed_map.entries[1].selector, entry2.selector);
    assert_eq!(parsed_map.entries[1].host, entry2.host);
    assert_eq!(parsed_map.entries[1].port, entry2.port);
}

#[test]
fn one_malformed_line_among_valid_ones_is_skipped() {
    let text = "0first\t/a\thost\t70\r\nthis line is broken\r\n0second\t/b\thost\t70\r\n0third\t/c\thost\t70\r\n";
    let (map, skipped) = Gophermap::from_string(text);
    assert_eq!(map.entries.len(), 3);
    assert_eq!(skipped, 1);
    assert_eq!(map.entries[0].description, "first");
    assert_eq!(map.entries[1].description, "second");
    assert_eq!(map.entries[2].description, "third");
}

#[test]
fn empty_map_text_yields_no_entries() {
    let (map, skipped) = Gophermap::from_string("");
    assert_eq!(map.entries.len(), 0);
    assert_eq!(skipped, 0);
}

#[test]
fn from_directory_lists_children_in_scan_order() {
    let children = vec![
        ChildInfo {
            name: "zebra".to_string(),
            selector: "/zebra".to_string(),
            kind: ChildKind::Directory,
            extension: "".to_string(),
        },
        ChildInfo {
            name: "apple.txt".to_string(),
            selector: "/apple.txt".to_string(),
            kind: ChildKind::Regular,
            extension: "txt".to_string(),
        },
        ChildInfo {
            name: "photo.gif".to_string(),
            selector: "/photo.gif".to_string(),
            kind: ChildKind::Regular,
            extension: "gif".to_string(),
        },
    ];
    let map = Gophermap::from_directory(&children, "example.org", 70);
    assert_eq!(map.entries.len(), 3);
    assert_eq!(map.entries[0].description, "zebra");
    assert_eq!(map.entries[0].gtype, GopherType::Directory);
    assert_eq!(map.entries[1].description, "apple.txt");
    assert_eq!(map.entries[1].gtype, GopherType::File);
    assert_eq!(map.entries[2].description, "photo.gif");
    assert_eq!(map.entries[2].gtype, GopherType::Gif);
}

#[test]
fn scan_skips_unstatable_children_without_failing() {
    let children = vec![
        ChildInfo {
            name: "good".to_string(),
            selector: "/good".to_string(),
            kind: ChildKind::Directory,
            extension: "".to_string(),
        },
        ChildInfo {
            name: "broken".to_string(),
            selector: "/broken".to_string(),
            kind: ChildKind::Other,
            extension: "".to_string(),
        },
        ChildInfo {
            name: "also-good.md".to_string(),
            selector: "/also-good.md".to_string(),
            kind: ChildKind::Regular,
            extension: "md".to_string(),
        },
    ];
    let map = Gophermap::from_directory(&children, "example.org", 70);
    assert_eq!(map.entries.len(), 2);
    assert_eq!(map.entries[0].description, "good");
    assert_eq!(map.entries[1].description, "also-good.md");
}

#[test]
fn map_serialize_concatenates_all_lines() {
    let text = "0a\t/a\thost\t70\r\n1b\t/b\thost\t7070\r\n";
    let (map, skipped) = Gophermap::from_string(text);
    assert_eq!(skipped, 0);
    assert_eq!(map.serialize(), text);
}
