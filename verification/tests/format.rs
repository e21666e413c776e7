use asar_save::{frame_header, AsarArchive, AsarError, AsarFile, AsarHeader, Game};

fn header_with(files: Vec<(String, AsarFile)>) -> AsarHeader {
    AsarHeader {
        files,
        game: Game::Eu4,
        filename: String::from("x"),
        original_header_line: None,
    }
}

#[test]
fn frame_of_small_json() {
    assert_eq!(
        frame_header(b"{}"),
        vec![4, 0, 0, 0, 12, 0, 0, 0, 8, 0, 0, 0, 2, 0, 0, 0, b'{', b'}', 0, 0]
    );
    let framed = frame_header(b"abcd");
    assert_eq!(framed.len(), 20);
    assert_eq!(&framed[4..16], &[12, 0, 0, 0, 8, 0, 0, 0, 4, 0, 0, 0]);
}

#[test]
fn frame_reads_back() {
    let json = br#"{"files":[]}"#;
    let mut data = frame_header(json);
    data.extend_from_slice(b"payload");
    assert_eq!(AsarArchive::header_json(&data).unwrap(), &json[..]);
    let archive = AsarArchive::try_parse(&data, header_with(vec![])).unwrap();
    assert_eq!(archive.data(), b"payload");
    assert_eq!(archive.header(), &header_with(vec![]));
}

#[test]
fn short_input_is_eof() {
    assert!(matches!(AsarArchive::header_json(&[4, 0, 0, 0, 1]), Err(AsarError::Eof)));
    assert!(matches!(
        AsarArchive::try_parse(&[4, 0, 0], header_with(vec![])),
        Err(AsarError::Eof)
    ));
}

#[test]
fn wrong_magic_is_asar_header() {
    let mut data = frame_header(b"{}");
    data[0] = 5;
    assert!(matches!(AsarArchive::header_json(&data), Err(AsarError::AsarHeader)));
    assert!(matches!(
        AsarArchive::try_parse(&data, header_with(vec![])),
        Err(AsarError::AsarHeader)
    ));
}

#[test]
fn json_past_the_end_is_eof() {
    let data = [4u8, 0, 0, 0, 0, 0, 0, 0, 4, 0, 0, 0, 9, 0, 0, 0, b'{', b'}'];
    assert!(matches!(AsarArchive::header_json(&data), Err(AsarError::Eof)));
}

#[test]
fn data_past_the_end_is_eof() {
    let data = [4u8, 0, 0, 0, 0, 0, 0, 0, 200, 0, 0, 0, 2, 0, 0, 0, b'{', b'}'];
    assert_eq!(AsarArchive::header_json(&data).unwrap(), b"{}");
    assert!(matches!(
        AsarArchive::try_parse(&data, header_with(vec![])),
        Err(AsarError::Eof)
    ));
}

#[test]
fn file_ranges_are_checked() {
    let mut data = frame_header(b"{}");
    data.extend_from_slice(b"0123456789");
    let files = vec![
        (String::from("a"), AsarFile { offset: 2, size: 3 }),
        (String::from("b"), AsarFile { offset: 8, size: 5 }),
        (String::from("a"), AsarFile { offset: 0, size: 1 }),
        (String::from("c"), AsarFile { offset: u64::MAX, size: 2 }),
    ];
    let archive = AsarArchive::try_parse(&data, header_with(files)).unwrap();
    assert_eq!(archive.file_data("a"), Some(&b"234"[..]));
    assert_eq!(archive.file_data("b"), None);
    assert_eq!(archive.file_data("c"), None);
    assert_eq!(archive.file_data("d"), None);
    let whole = AsarFile { offset: 0, size: 10 };
    assert_eq!(whole.data(&archive), Some(&b"0123456789"[..]));
    let empty = AsarFile { offset: 10, size: 0 };
    assert_eq!(empty.data(&archive), Some(&b""[..]));
}
