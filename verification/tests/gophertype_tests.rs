use rusty_gopher::gophertype::GopherType;

#[test]
fn test_to_type_string() {
    assert_eq!(GopherType::to_type_string(&GopherType::Informational), "i");
    assert_eq!(GopherType::to_type_string(&GopherType::Gif), "g");
    assert_eq!(GopherType::to_type_string(&GopherType::Directory), "1");
    assert_eq!(GopherType::to_type_string(&GopherType::File), "0");
    assert_eq!(GopherType::to_type_string(&GopherType::BinaryFile), "9");
    assert_eq!(GopherType::to_type_string(&GopherType::Error), "3");
}

#[test]
fn gophertype_test_from_str() {
    assert_eq!(GopherType::from_str("i"), GopherType::Informational);
    assert_eq!(GopherType::from_str("g"), GopherType::Gif);
    assert_eq!(GopherType::from_str("1"), GopherType::Directory);
    assert_eq!(GopherType::from_str("0"), GopherType::File);
    assert_eq!(GopherType::from_str("9"), GopherType::BinaryFile);
    assert_eq!(GopherType::from_str("3"), GopherType::Error);
    assert_eq!(GopherType::from_str("7"), GopherType::Error);
}

#[test]
fn test_from_file_extension() {
    assert_eq!(GopherType::from_file_extension("txt"), GopherType::File);
    assert_eq!(GopherType::from_file_extension("md"), GopherType::File);
    assert_eq!(GopherType::from_file_extension("gif"), GopherType::Gif);
    assert_eq!(
        GopherType::from_file_extension("wtf"),
        GopherType::BinaryFile
    );
}

#[test]
fn from_str_rejects_long_and_empty_codes() {
    assert_eq!(GopherType::from_str(""), GopherType::Error);
    assert_eq!(GopherType::from_str("ii"), GopherType::Error);
    assert_eq!(GopherType::from_str(" "), GopherType::Error);
}

#[test]
fn wire_code_round_trips_for_every_type() {
    let all = [
        GopherType::Informational,
        GopherType::Gif,
        GopherType::Directory,
        GopherType::File,
        GopherType::BinaryFile,
        GopherType::Error,
    ];
    for t in all {
        let code = t.to_type_string();
        assert_eq!(GopherType::from_str(code.as_str()), t);
    }
}
