use std::io::{Cursor, Read, Write};

fn small_zip() -> Vec<u8> {
    let mut out_zip = zip::ZipWriter::new(Cursor::new(Vec::new()));
    let options =
        zip::write::FileOptions::default().compression_method(zip::CompressionMethod::Deflated);
    out_zip.start_file("gamestate", options).unwrap();
    out_zip.write_all(b"date=1444.11.11").unwrap();
    out_zip.finish().unwrap().into_inner()
}

#[test]
fn test_recompression_plaintext() {
    let data = b"hello world";
    let compressed = asar_save::compress(&data[..]).unwrap();

    let reader = Cursor::new(compressed);
    let mut decoder = flate2::read::GzDecoder::new(reader);
    let mut out = Vec::new();
    decoder.read_to_end(&mut out).unwrap();
    assert_eq!(out.as_slice(), &data[..]);
}

#[test]
fn test_recompression_zip() {
    let data = small_zip();
    let compressed = asar_save::compress(&data[..]).unwrap();
    assert_eq!(&data[..], compressed.as_slice());
}

#[test]
fn compressed_text_differs_from_text() {
    let data = b"some save text";
    let compressed = asar_save::compress(&data[..]).unwrap();
    assert_ne!(compressed.as_slice(), &data[..]);
    assert_eq!(&compressed[..2], &[0x1f, 0x8b]);
}

#[test]
fn upload_headers() {
    assert_eq!(
        asar_save::http_upload_headers(&small_zip()),
        r#"{"content_type":"application/zip"}"#
    );
    assert_eq!(
        asar_save::http_upload_headers(b"plain"),
        r#"{"content_type":"text/plain", "content_encoding": "gzip"}"#
    );
}

#[test]
fn progress_reports_every_hundredth_read() {
    let mut progress = asar_save::ReadProgress::new(1000);
    for _ in 0..99 {
        assert_eq!(progress.record(5), None);
    }
    assert_eq!(progress.record(5), Some((500, 1000)));
    assert_eq!(progress.record(1), None);
}
