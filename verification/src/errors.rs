use std::str::Utf8Error;
use vstd::prelude::*;
use zip::result::ZipError;

verus! {

/// Everything that can go wrong while reading or writing an archive.
#[derive(Debug)]
pub enum AsarError {
    /// The input ended before a field that the format requires.
    Eof,
    /// The zip archive refused to hand out one of its entries.
    ZipIndex(ZipError),
    /// A zip entry could not be inflated.
    ZipBadData { msg: String },
    /// The JSON header could not be encoded or decoded.
    HeaderSerialization(serde_json::Error),
    /// The compressor refused its input.
    Compression(std::io::Error),
    /// The header line of a save is not UTF-8.
    HeaderEncoding(Utf8Error),
    /// A game that prefixes its zip with a header line had none, or too short a one.
    HeaderLine,
    /// The archive does not start with the expected magic number.
    AsarHeader,
}

} // verus!
