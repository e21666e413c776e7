use std::io::Cursor;
use std::io::Read;
use flate2::read::{DeflateDecoder, GzEncoder};
use flate2::Compression;
use std::str::Utf8Error;
use vstd::prelude::*;
use zip::result::ZipError;
use zip::ZipArchive;

verus! {

/// Declares `zip::ZipArchive`, so that an opened archive can be carried through
/// verified code. Nothing inside it is visible to Verus.
#[verifier::external_type_specification]
#[verifier::external_body]
#[verifier::reject_recursive_types(R)]
pub struct ExZipArchive<R>(ZipArchive<R>);

/// Declares `std::io::Cursor`, the in-memory reader an archive is opened over.
#[verifier::external_type_specification]
#[verifier::external_body]
#[verifier::reject_recursive_types(T)]
pub struct ExCursor<T>(Cursor<T>);

/// Declares `zip::result::ZipError`.
#[verifier::external_type_specification]
#[verifier::external_body]
pub struct ExZipError(ZipError);

/// Declares `std::io::Error`.
#[verifier::external_type_specification]
#[verifier::external_body]
pub struct ExIoError(std::io::Error);

/// Declares `std::str::Utf8Error`.
#[verifier::external_type_specification]
#[verifier::external_body]
pub struct ExUtf8Error(Utf8Error);

/// Declares `serde_json::Error`.
#[verifier::external_type_specification]
#[verifier::external_body]
pub struct ExJsonError(serde_json::Error);

/// The bytes an archive was opened over.
pub uninterp spec fn zip_source(archive: ZipArchive<Cursor<&[u8]>>) -> Seq<u8>;

/// Whether `zip::ZipArchive::new` accepts these bytes as a zip archive.
pub uninterp spec fn zip_opens(data: Seq<u8>) -> bool;

/// `zip::ZipArchive::new` over an in-memory cursor: succeeds exactly when the bytes
/// are accepted as an archive, and the archive then reads from those bytes.
#[verifier::external_body]
pub(crate) fn zip_open<'a>(data: &'a [u8]) -> (res: Result<ZipArchive<Cursor<&'a [u8]>>, ZipError>)
    ensures
        res is Ok <==> zip_opens(data@),
        res matches Ok(archive) ==> zip_source(archive) == data@,
{
    ZipArchive::new(Cursor::new(data))
}

/// How many entries the central directory of an archive over `data` lists.
pub uninterp spec fn zip_entry_count(data: Seq<u8>) -> nat;

/// How many bytes come before the zip archive found in `data`.
pub uninterp spec fn zip_prefix_len(data: Seq<u8>) -> u64;

/// What reading entry `index` of the archive over `data` without decompressing it
/// gives: its name, uncompressed size, where its compressed bytes start within
/// `data`, and how many compressed bytes there are; `None` when it cannot be read.
pub uninterp spec fn zip_entry_raw(data: Seq<u8>, index: int) -> Option<(Seq<char>, u64, u64, u64)>;

/// What one entry of a zip archive says of itself.
pub struct ZipEntryMeta {
    pub name: String,
    pub size: u64,
    pub data_start: u64,
    pub compressed_size: u64,
}

impl ZipEntryMeta {
    pub open spec fn view(&self) -> (Seq<char>, u64, u64, u64) {
        (self.name@, self.size, self.data_start, self.compressed_size)
    }
}

/// `zip::ZipArchive::len`: the number of entries in the central directory.
#[verifier::external_body]
pub(crate) fn zip_len(archive: &ZipArchive<Cursor<&[u8]>>) -> (res: usize)
    ensures
        res == zip_entry_count(zip_source(*archive)),
{
    archive.len()
}

/// `zip::ZipArchive::offset`: the size of the data prepended to the archive, which
/// therefore lies within the bytes it was opened over.
#[verifier::external_body]
pub(crate) fn zip_offset(archive: &ZipArchive<Cursor<&[u8]>>) -> (res: u64)
    ensures
        res == zip_prefix_len(zip_source(*archive)),
        res <= zip_source(*archive).len(),
{
    archive.offset()
}

/// `zip::ZipArchive::by_index_raw`, keeping the entry's name, size, data start and
/// compressed size. Reading an entry moves the archive's reader but not its bytes.
#[verifier::external_body]
pub(crate) fn zip_entry(archive: &mut ZipArchive<Cursor<&[u8]>>, index: usize) -> (res: Result<
    ZipEntryMeta,
    ZipError,
>)
    ensures
        zip_source(*final(archive)) == zip_source(*old(archive)),
        res is Ok <==> zip_entry_raw(zip_source(*old(archive)), index as int) is Some,
        res matches Ok(meta) ==> meta.view() == zip_entry_raw(
            zip_source(*old(archive)),
            index as int,
        ).unwrap(),
{
    let file = archive.by_index_raw(index)?;
    Ok(ZipEntryMeta {
        name: String::from(file.name()),
        size: file.size(),
        data_start: file.data_start(),
        compressed_size: file.compressed_size(),
    })
}

/// What decoding `data` as a raw deflate stream gives, `None` when it is not one.
pub uninterp spec fn raw_inflate(data: Seq<u8>) -> Option<Seq<u8>>;

/// `flate2::read::DeflateDecoder` read to its end; an error is handed back as its
/// message, which no clause describes.
#[verifier::external_body]
pub(crate) fn inflate(data: &[u8]) -> (res: Result<Vec<u8>, String>)
    ensures
        res is Ok <==> raw_inflate(data@) is Some,
        res matches Ok(out) ==> out@ == raw_inflate(data@).unwrap(),
{
    let mut out = Vec::new();
    DeflateDecoder::new(data).read_to_end(&mut out).map(|_| out).map_err(|e| e.to_string())
}

/// What brotli compression of `data` at the given quality and window gives.
pub uninterp spec fn brotli_encode(data: Seq<u8>, quality: i32, lgwin: i32) -> Seq<u8>;

/// `brotli::BrotliCompress` of `data` at the given quality and window size. Reading
/// from a slice and writing into a `Vec` cannot fail, so it always succeeds.
#[verifier::external_body]
pub(crate) fn brotli_compress(data: &[u8], quality: i32, lgwin: i32) -> (res: Result<
    Vec<u8>,
    std::io::Error,
>)
    ensures
        res is Ok,
        res matches Ok(out) ==> out@ == brotli_encode(data@, quality, lgwin),
{
    let mut params = brotli::enc::BrotliEncoderParams::default();
    params.quality = quality;
    params.lgwin = lgwin;
    let mut input = data;
    let mut out = Vec::new();
    brotli::BrotliCompress(&mut input, &mut out, &params).map(|_| out)
}

/// What gzip compression of `data` at compression `level` gives.
pub uninterp spec fn gzip_encode(data: Seq<u8>, level: u32) -> Seq<u8>;

/// `flate2::read::GzEncoder` over `data` at compression `level`, read to its end.
/// Reading from a slice cannot fail, so it always succeeds. The encoder asserts a
/// level of at most nine (ten for one backend), so only those levels are admitted.
#[verifier::external_body]
pub(crate) fn gzip_compress(data: &[u8], level: u32) -> (res: Result<Vec<u8>, std::io::Error>)
    requires
        level <= 9,
    ensures
        res is Ok,
        res matches Ok(out) ==> out@ == gzip_encode(data@, level),
{
    let mut out = Vec::new();
    GzEncoder::new(data, Compression::new(level)).read_to_end(&mut out).map(|_| out)
}

/// `std::str::from_utf8`: succeeds exactly on valid UTF-8, with the characters that
/// the bytes encode.
#[verifier::external_body]
pub(crate) fn utf8_str(bytes: &[u8]) -> (res: Result<&str, Utf8Error>)
    ensures
        res is Ok <==> vstd::utf8::valid_utf8(bytes@),
        res matches Ok(s) ==> s@ == vstd::utf8::decode_utf8(bytes@),
{
    std::str::from_utf8(bytes)
}

/// Whether `c` has the Unicode property White_Space, which is what `char::is_whitespace`
/// tests.
pub open spec fn is_white_space(c: char) -> bool {
    let u = c as u32;
    ||| 0x09 <= u <= 0x0d
    ||| u == 0x20
    ||| u == 0x85
    ||| u == 0xa0
    ||| u == 0x1680
    ||| 0x2000 <= u <= 0x200a
    ||| u == 0x2028
    ||| u == 0x2029
    ||| u == 0x202f
    ||| u == 0x205f
    ||| u == 0x3000
}

/// `s` without its trailing White_Space characters.
pub open spec fn trimmed_end(s: Seq<char>) -> Seq<char>
    decreases s.len(),
{
    if s.len() > 0 && is_white_space(s.last()) {
        trimmed_end(s.drop_last())
    } else {
        s
    }
}

/// `str::trim_end`, which removes the trailing characters that have the Unicode
/// property White_Space.
#[verifier::external_body]
pub(crate) fn trim_end(s: &str) -> (res: &str)
    ensures
        res@ == trimmed_end(s@),
{
    s.trim_end()
}

} // verus!
