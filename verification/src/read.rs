use crate::asar::{spec_file_slice, AsarFile, AsarHeader};
use crate::bytes::{get_u32, le_u32_at};
use crate::errors::AsarError;
use vstd::prelude::*;

verus! {

/// The number an archive starts with.
pub open spec fn asar_magic(b: Seq<u8>) -> u32 {
    le_u32_at(b, 0)
}

/// The header size field (the third `u32`).
pub open spec fn asar_header_size(b: Seq<u8>) -> u32 {
    le_u32_at(b, 8)
}

/// The JSON size field (the fourth `u32`).
pub open spec fn asar_json_size(b: Seq<u8>) -> u32 {
    le_u32_at(b, 12)
}

/// Where the JSON header ends.
pub open spec fn asar_json_end(b: Seq<u8>) -> int {
    16 + asar_json_size(b)
}

/// Where the file data starts.
pub open spec fn asar_data_start(b: Seq<u8>) -> int {
    asar_header_size(b) + 12
}

/// The four size fields are there and the magic number is right.
pub open spec fn asar_magic_ok(b: Seq<u8>) -> bool {
    b.len() >= 16 && asar_magic(b) == 4
}

/// The JSON header can be located in `b`.
pub open spec fn asar_json_ok(b: Seq<u8>) -> bool {
    asar_magic_ok(b) && asar_json_end(b) <= b.len()
}

/// Both the JSON header and the file data can be located in `b`.
pub open spec fn asar_frame_ok(b: Seq<u8>) -> bool {
    asar_json_ok(b) && asar_data_start(b) <= b.len()
}

/// The bytes of the JSON header.
pub open spec fn asar_header_json(b: Seq<u8>) -> Seq<u8> {
    b.subrange(16, asar_json_end(b))
}

/// The file data, everything after the header.
pub open spec fn asar_data(b: Seq<u8>) -> Seq<u8> {
    b.subrange(asar_data_start(b), b.len() as int)
}

/// The error that reading the frame of `b` ends in, for `b` that are not a frame: a
/// wrong magic number once the fields are there, and otherwise the end of the input.
pub open spec fn frame_error_is(b: Seq<u8>, e: AsarError) -> bool {
    if b.len() >= 16 && asar_magic(b) != 4 {
        e is AsarHeader
    } else {
        e is Eof
    }
}

/// An uncompressed archive: its decoded header and the file data that follows it.
pub struct AsarArchive<'a> {
    header: AsarHeader,
    data: &'a [u8],
}

/// `i` is the index of the first file of `files` named `name`.
pub open spec fn first_named(files: Seq<(String, AsarFile)>, name: Seq<char>, i: int) -> bool {
    &&& 0 <= i < files.len()
    &&& files[i].0@ == name
    &&& forall|j: int| 0 <= j < i ==> files[j].0@ != name
}

/// No file of `files` is named `name`.
pub open spec fn none_named(files: Seq<(String, AsarFile)>, name: Seq<char>) -> bool {
    forall|j: int| 0 <= j < files.len() ==> files[j].0@ != name
}

/// The frame fields of `input`, read in the order that the format lays them out.
fn read_fields(input: &[u8]) -> (res: Result<(u32, u32, u32, &[u8]), AsarError>)
    ensures
        res is Ok <==> input@.len() >= 16,
        res matches Ok((magic, header_size, json_size, rest)) ==> {
            &&& magic == asar_magic(input@)
            &&& header_size == asar_header_size(input@)
            &&& json_size == asar_json_size(input@)
            &&& rest@ == input@.skip(16)
        },
        res matches Err(e) ==> e is Eof,
{
    let (magic, rem) = get_u32(input)?;
    let (_prelude_size, rem) = get_u32(rem)?;
    let (header_size, rem) = get_u32(rem)?;
    let (json_size, rem) = get_u32(rem)?;
    proof {
        assert(input@.skip(4).skip(4) =~= input@.skip(8));
        assert(input@.skip(8).skip(4) =~= input@.skip(12));
        assert(input@.skip(12).skip(4) =~= input@.skip(16));
        assert(input@.skip(8).subrange(0, 4) =~= input@.subrange(8, 12));
        assert(input@.skip(12).subrange(0, 4) =~= input@.subrange(12, 16));
    }
    Ok((magic, header_size, json_size, rem))
}

impl<'a> AsarArchive<'a> {
    /// The header this archive was built with.
    pub closed spec fn header_view(&self) -> AsarHeader {
        self.header
    }

    /// The file data of this archive.
    pub closed spec fn data_view(&self) -> Seq<u8> {
        self.data@
    }

    /// Locates the JSON header of an uncompressed archive.
    pub fn header_json(input: &[u8]) -> (res: Result<&[u8], AsarError>)
        ensures
            res is Ok <==> asar_json_ok(input@),
            res matches Ok(json) ==> json@ == asar_header_json(input@),
            res matches Err(e) ==> frame_error_is(input@, e),
    {
        let (magic, _header_size, json_size, rem) = read_fields(input)?;
        if magic != 4 {
            return Err(AsarError::AsarHeader);
        }
        if json_size as usize > rem.len() {
            return Err(AsarError::Eof);
        }
        let json = vstd::slice::slice_subrange(rem, 0, json_size as usize);
        assert(json@ =~= asar_header_json(input@));
        Ok(json)
    }

    /// Assembles an archive from its uncompressed bytes and the header that its JSON
    /// decodes to.
    pub fn try_parse(input: &'a [u8], header: AsarHeader) -> (res: Result<Self, AsarError>)
        ensures
            res is Ok <==> asar_frame_ok(input@),
            res matches Ok(archive) ==> archive.header_view() == header && archive.data_view()
                == asar_data(input@),
            res matches Err(e) ==> frame_error_is(input@, e),
    {
        let (magic, header_size, json_size, rem) = read_fields(input)?;
        if magic != 4 {
            return Err(AsarError::AsarHeader);
        }
        if json_size as usize > rem.len() {
            return Err(AsarError::Eof);
        }
        if header_size as u64 + 12 > input.len() as u64 {
            return Err(AsarError::Eof);
        }
        let start = header_size as usize + 12;
        let data = vstd::slice::slice_subrange(input, start, input.len());
        Ok(AsarArchive { header, data })
    }

    /// The bytes of the first file named `file`, when there is one and its range fits
    /// in the data.
    pub fn file_data(&self, file: &str) -> (res: Option<&'a [u8]>)
        ensures
            none_named(self.header_view().files@, file@) ==> res is None,
            forall|i: int|
                #![trigger self.header_view().files@[i]]
                first_named(self.header_view().files@, file@, i) ==> match spec_file_slice(
                    self.header_view().files@[i].1,
                    self.data_view(),
                ) {
                    Some(s) => res matches Some(r) && r@ == s,
                    None => res is None,
                },
    {
        let files = &self.header.files;
        let n = files.len();
        let mut i: usize = 0;
        while i < n
            invariant
                n == files@.len(),
                files == &self.header.files,
                0 <= i <= n,
                forall|j: int| 0 <= j < i ==> files@[j].0@ != file@,
            decreases n - i,
        {
            if str_eq(files[i].0.as_str(), file) {
                return files[i].1.data(self);
            }
            i += 1;
        }
        None
    }

    /// The file data of this archive.
    pub fn data(&self) -> (res: &'a [u8])
        ensures
            res@ == self.data_view(),
    {
        self.data
    }

    /// The decoded header of this archive.
    pub fn header(&self) -> (res: &AsarHeader)
        ensures
            *res == self.header_view(),
    {
        &self.header
    }
}

/// Whether two strings hold the same characters, compared through their UTF-8 bytes.
pub(crate) fn str_eq(a: &str, b: &str) -> (res: bool)
    ensures
        res == (a@ == b@),
{
    let x = a.as_bytes();
    let y = b.as_bytes();
    proof {
        vstd::utf8::encode_utf8_decode_utf8(a@);
        vstd::utf8::encode_utf8_decode_utf8(b@);
    }
    if x.len() != y.len() {
        return false;
    }
    let mut i: usize = 0;
    while i < x.len()
        invariant
            x@ == vstd::utf8::encode_utf8(a@),
            y@ == vstd::utf8::encode_utf8(b@),
            x@.len() == y@.len(),
            0 <= i <= x@.len(),
            forall|j: int| 0 <= j < i ==> x@[j] == y@[j],
        decreases x@.len() - i,
    {
        if x[i] != y[i] {
            return false;
        }
        i += 1;
    }
    assert(x@ =~= y@);
    true
}

} // verus!
