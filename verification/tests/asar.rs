use asar_save::{AsarArchive, AsarError, AsarFile, AsarHeader, AsarPlan, Game, Metadata};
use serde_json::Value;
use std::io::{Cursor, Write};

struct ZipFile<'a> {
    name: &'a str,
    data: &'a [u8],
}

fn create_zip(files: &[ZipFile]) -> Vec<u8> {
    let out = Vec::new();
    let writer = Cursor::new(out);
    let mut out_zip = zip::ZipWriter::new(writer);
    let options =
        zip::write::FileOptions::default().compression_method(zip::CompressionMethod::Deflated);

    for file in files {
        out_zip.start_file(file.name, options).unwrap();
        out_zip.write_all(file.data).unwrap();
    }
    out_zip.finish().unwrap().into_inner()
}

fn brotli_inflate(mut data: &[u8]) -> Vec<u8> {
    let mut out = Vec::new();
    brotli::BrotliDecompress(&mut data, &mut out).unwrap();
    out
}

fn game_name(game: Game) -> &'static str {
    match game {
        Game::Eu4 => "eu4",
        Game::Vic3 => "vic3",
        Game::Hoi4 => "hoi4",
        Game::Imperator => "imperator",
        Game::Ck3 => "ck3",
    }
}

fn game_from_name(name: &str) -> Game {
    match name {
        "eu4" => Game::Eu4,
        "vic3" => Game::Vic3,
        "hoi4" => Game::Hoi4,
        "imperator" => Game::Imperator,
        "ck3" => Game::Ck3,
        other => panic!("unknown game {}", other),
    }
}

// The JSON encoding of a header that the tool uses: the files as an object from name
// to file, in archive order, with offsets as strings.
fn header_to_json(header: &AsarHeader) -> Vec<u8> {
    let files: Vec<String> = header
        .files
        .iter()
        .map(|(name, file)| {
            format!(
                "{}:{{\"offset\":\"{}\",\"size\":{}}}",
                serde_json::to_string(name).unwrap(),
                file.offset,
                file.size
            )
        })
        .collect();
    let mut out = format!(
        "{{\"files\":{{{}}},\"game\":\"{}\",\"filename\":{}",
        files.join(","),
        game_name(header.game),
        serde_json::to_string(&header.filename).unwrap()
    );
    if let Some(line) = &header.original_header_line {
        out.push_str(&format!(
            ",\"original_header_line\":{}",
            serde_json::to_string(line).unwrap()
        ));
    }
    out.push('}');
    out.into_bytes()
}

// The files of a header, in the order the JSON object lists them.
struct OrderedFiles(Vec<(String, AsarFile)>);

struct OrderedFilesVisitor;

impl<'de> serde::de::Visitor<'de> for OrderedFilesVisitor {
    type Value = OrderedFiles;

    fn expecting(&self, f: &mut std::fmt::Formatter) -> std::fmt::Result {
        f.write_str("an object of files")
    }

    fn visit_map<A: serde::de::MapAccess<'de>>(self, mut map: A) -> Result<OrderedFiles, A::Error> {
        let mut out = Vec::new();
        while let Some((name, file)) = map.next_entry::<String, Value>()? {
            let offset = file["offset"].as_str().unwrap().parse::<u64>().unwrap();
            let size = file["size"].as_u64().unwrap();
            out.push((name, AsarFile { offset, size }));
        }
        Ok(OrderedFiles(out))
    }
}

impl<'de> serde::Deserialize<'de> for OrderedFiles {
    fn deserialize<D: serde::Deserializer<'de>>(d: D) -> Result<Self, D::Error> {
        d.deserialize_map(OrderedFilesVisitor)
    }
}

// Only the `files` member of a header, the other members skipped.
struct FilesOnly(Vec<(String, AsarFile)>);

struct FilesOnlyVisitor;

impl<'de> serde::de::Visitor<'de> for FilesOnlyVisitor {
    type Value = FilesOnly;

    fn expecting(&self, f: &mut std::fmt::Formatter) -> std::fmt::Result {
        f.write_str("a header object")
    }

    fn visit_map<A: serde::de::MapAccess<'de>>(self, mut map: A) -> Result<FilesOnly, A::Error> {
        let mut files = Vec::new();
        while let Some(key) = map.next_key::<String>()? {
            if key == "files" {
                files = map.next_value::<OrderedFiles>()?.0;
            } else {
                map.next_value::<serde::de::IgnoredAny>()?;
            }
        }
        Ok(FilesOnly(files))
    }
}

impl<'de> serde::Deserialize<'de> for FilesOnly {
    fn deserialize<D: serde::Deserializer<'de>>(d: D) -> Result<Self, D::Error> {
        d.deserialize_map(FilesOnlyVisitor)
    }
}

fn header_from_json(json: &[u8]) -> AsarHeader {
    let value: Value = serde_json::from_slice(json).unwrap();
    let files: FilesOnly = serde_json::from_slice(json).unwrap();
    AsarHeader {
        files: files.0,
        game: game_from_name(value["game"].as_str().unwrap()),
        filename: String::from(value["filename"].as_str().unwrap()),
        original_header_line: value
            .get("original_header_line")
            .map(|l| String::from(l.as_str().unwrap())),
    }
}

fn create_asar(input: &[u8], game: Game, meta: &Metadata) -> Result<Vec<u8>, AsarError> {
    let plan = AsarPlan::new(input, game, meta)?;
    let json = header_to_json(plan.header());
    plan.encode(&json)
}

fn try_parse(data: &[u8]) -> Result<AsarArchive<'_>, AsarError> {
    let json = AsarArchive::header_json(data)?;
    let header = header_from_json(json);
    AsarArchive::try_parse(data, header)
}

#[test]
fn test_eu4_txt_zip() {
    let zip = create_zip(&[
        ZipFile {
            name: "ai",
            data: b"EU4txt\nchecksum=\"abc123\"",
        },
        ZipFile {
            name: "gamestate",
            data: b"EU4txt\nstart_date=1444.11.11",
        },
        ZipFile {
            name: "meta",
            data: b"EU4txt\ndate=1817.8.31",
        },
    ]);

    let out = create_asar(
        &zip,
        Game::Eu4,
        &Metadata {
            filename: "test.eu4",
        },
    )
    .unwrap();

    let asar_data = brotli_inflate(&out);
    let asar = try_parse(&asar_data).unwrap();

    let files = vec![
        (
            String::from("meta"),
            AsarFile {
                offset: 0,
                size: 21,
            },
        ),
        (
            String::from("gamestate"),
            AsarFile {
                offset: 21,
                size: 22,
            },
        ),
        (
            String::from("ai"),
            AsarFile {
                offset: 43,
                size: 18,
            },
        ),
    ];

    let meta = AsarHeader {
        files,
        game: Game::Eu4,
        filename: String::from("test.eu4"),
        ..Default::default()
    };

    assert_eq!(asar.header(), &meta);
    assert_eq!(
        asar.data(),
        b"EU4txt\ndate=1817.8.31\nstart_date=1444.11.11\nchecksum=\"abc123\""
    );
}

#[test]
fn test_eu4_txt_plain() {
    let out = create_asar(
        b"EU4txt\ndate=1817.8.31\nstart_date=1444.11.11\nchecksum=\"abc123\"",
        Game::Eu4,
        &Metadata {
            filename: "test.eu4",
        },
    )
    .unwrap();

    let asar_data = brotli_inflate(&out);
    let asar = try_parse(&asar_data).unwrap();
    assert_eq!(
        asar.data(),
        b"EU4txt\ndate=1817.8.31\nstart_date=1444.11.11\nchecksum=\"abc123\""
    );
}

#[test]
fn plain_save_is_one_whole_file() {
    let input = b"EU4txt\ndate=1444.11.11";
    let plan = AsarPlan::new(input, Game::Eu4, &Metadata { filename: "a.eu4" }).unwrap();
    let header = plan.header();
    assert_eq!(
        header.files,
        vec![(String::from("a.eu4"), AsarFile { offset: 0, size: 22 })]
    );
    assert_eq!(header.filename, "a.eu4");
    assert_eq!(header.original_header_line, None);

    let out = plan.encode(&header_to_json(header)).unwrap();
    let raw = brotli_inflate(&out);
    let asar = try_parse(&raw).unwrap();
    assert_eq!(asar.file_data("a.eu4"), Some(&input[..]));
    assert_eq!(asar.file_data("meta"), None);
}

#[test]
fn zip_entries_read_back_by_name() {
    let zip = create_zip(&[
        ZipFile { name: "gamestate", data: b"EU4txtgame" },
        ZipFile { name: "unrelated", data: b"ignored" },
        ZipFile { name: "meta", data: b"EU4txtmeta" },
    ]);
    let out = create_asar(&zip, Game::Eu4, &Metadata { filename: "b.eu4" }).unwrap();
    let raw = brotli_inflate(&out);
    let asar = try_parse(&raw).unwrap();
    assert_eq!(asar.data(), b"EU4txtmetagame");
    assert_eq!(asar.file_data("meta"), Some(&b"EU4txtmeta"[..]));
    assert_eq!(asar.file_data("gamestate"), Some(&b"game"[..]));
    assert_eq!(asar.file_data("unrelated"), None);
    assert_eq!(asar.file_data("ai"), None);
}

#[test]
fn header_line_save_keeps_its_line() {
    let line = b"SAV0102a84ea01a0000000000\n";
    let zip = create_zip(&[ZipFile { name: "gamestate", data: b"date=1836.1.1" }]);
    let mut input = line.to_vec();
    input.extend_from_slice(&zip);

    let plan = AsarPlan::new(&input, Game::Vic3, &Metadata { filename: "c.v3" }).unwrap();
    assert_eq!(
        plan.header().original_header_line.as_deref(),
        Some("SAV0102a84ea01a0000000000")
    );
    assert_eq!(
        plan.header().files,
        vec![(String::from("gamestate"), AsarFile { offset: 0, size: 13 })]
    );
    let out = plan.encode(&header_to_json(plan.header())).unwrap();
    let raw = brotli_inflate(&out);
    let asar = try_parse(&raw).unwrap();
    assert_eq!(asar.data(), b"SAV0100a84ea01a0000000000\ndate=1836.1.1");
}

#[test]
fn header_line_trailing_whitespace_is_trimmed() {
    let line = b"SAV0102a84ea01a0000000000  \r\n";
    let zip = create_zip(&[ZipFile { name: "gamestate", data: b"x" }]);
    let mut input = line.to_vec();
    input.extend_from_slice(&zip);
    let plan = AsarPlan::new(&input, Game::Vic3, &Metadata { filename: "k" }).unwrap();
    assert_eq!(
        plan.header().original_header_line.as_deref(),
        Some("SAV0102a84ea01a0000000000")
    );
}

#[test]
fn header_json_keeps_file_order() {
    let header = AsarHeader {
        files: vec![
            (String::from("meta"), AsarFile { offset: 0, size: 1 }),
            (String::from("gamestate"), AsarFile { offset: 1, size: 2 }),
            (String::from("ai"), AsarFile { offset: 3, size: 4 }),
        ],
        game: Game::Ck3,
        filename: String::from("q\"z"),
        original_header_line: Some(String::from("SAV")),
    };
    let json = header_to_json(&header);
    assert_eq!(
        std::str::from_utf8(&json).unwrap(),
        "{\"files\":{\"meta\":{\"offset\":\"0\",\"size\":1},\"gamestate\":{\"offset\":\"1\",\"size\":2},\"ai\":{\"offset\":\"3\",\"size\":4}},\"game\":\"ck3\",\"filename\":\"q\\\"z\",\"original_header_line\":\"SAV\"}"
    );
    assert_eq!(header_from_json(&json), header);
}

#[test]
fn header_line_odd_digit_becomes_one() {
    let line = b"SAV0103a84ea01a0000000000\n";
    let zip = create_zip(&[ZipFile { name: "gamestate", data: b"x" }]);
    let mut input = line.to_vec();
    input.extend_from_slice(&zip);
    let out = create_asar(&input, Game::Ck3, &Metadata { filename: "d.ck3" }).unwrap();
    let raw = brotli_inflate(&out);
    let asar = try_parse(&raw).unwrap();
    assert_eq!(asar.data(), b"SAV0101a84ea01a0000000000\nx");
}

#[test]
fn missing_header_line_is_refused() {
    let zip = create_zip(&[ZipFile { name: "gamestate", data: b"x" }]);
    let res = AsarPlan::new(&zip, Game::Vic3, &Metadata { filename: "e" });
    assert!(matches!(res, Err(AsarError::HeaderLine)));
}

#[test]
fn short_header_line_is_refused() {
    let zip = create_zip(&[ZipFile { name: "gamestate", data: b"x" }]);
    let mut input = b"SAV01\n".to_vec();
    input.extend_from_slice(&zip);
    let res = AsarPlan::new(&input, Game::Imperator, &Metadata { filename: "f" });
    assert!(matches!(res, Err(AsarError::HeaderLine)));
}

#[test]
fn header_line_that_is_not_utf8_is_refused() {
    let zip = create_zip(&[ZipFile { name: "gamestate", data: b"x" }]);
    let mut input = b"SAV0102a84ea01a00000\xff\xfe00000\n".to_vec();
    input.extend_from_slice(&zip);
    let res = AsarPlan::new(&input, Game::Vic3, &Metadata { filename: "g" });
    assert!(matches!(res, Err(AsarError::HeaderEncoding(_))));
}

#[test]
fn hoi4_zip_keeps_no_entries() {
    let zip = create_zip(&[ZipFile { name: "gamestate", data: b"x" }]);
    let plan = AsarPlan::new(&zip, Game::Hoi4, &Metadata { filename: "h" }).unwrap();
    assert!(plan.header().files.is_empty());
    let out = plan.encode(&header_to_json(plan.header())).unwrap();
    let raw = brotli_inflate(&out);
    assert_eq!(try_parse(&raw).unwrap().data(), b"");
}

#[test]
fn entry_shorter_than_game_header_is_bad_data() {
    let zip = create_zip(&[
        ZipFile { name: "meta", data: b"EU4txt" },
        ZipFile { name: "ai", data: b"EU4" },
    ]);
    let plan = AsarPlan::new(&zip, Game::Eu4, &Metadata { filename: "i" }).unwrap();
    let res = plan.encode(&header_to_json(plan.header()));
    assert!(matches!(res, Err(AsarError::ZipBadData { .. })));
}

#[test]
fn unreadable_zip_entry_is_zip_index() {
    let mut zip = create_zip(&[ZipFile { name: "meta", data: b"EU4txt" }]);
    // Break the local file header signature; the central directory stays intact.
    zip[0] = b'X';
    let res = AsarPlan::new(&zip, Game::Eu4, &Metadata { filename: "j" });
    assert!(matches!(res, Err(AsarError::ZipIndex(_))));
}

#[test]
fn game_tables() {
    assert!(!Game::Eu4.has_header_line());
    assert!(!Game::Hoi4.has_header_line());
    assert!(Game::Vic3.has_header_line());
    assert!(Game::Imperator.has_header_line());
    assert!(Game::Ck3.has_header_line());
    assert_eq!(Game::Eu4.zip_order(), &["meta", "gamestate", "ai"]);
    assert_eq!(Game::Ck3.zip_order(), &["gamestate"]);
    assert_eq!(Game::Hoi4.zip_order().len(), 0);
    assert_eq!(Game::Eu4.zip_file_header(), b"EU4txt");
    assert_eq!(Game::Vic3.zip_file_header(), b"");
    assert_eq!(Game::default(), Game::Eu4);
}
