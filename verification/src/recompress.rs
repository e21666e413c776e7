use crate::foreign::{gzip_compress, gzip_encode, zip_open, zip_opens};
use vstd::prelude::*;

verus! {

/// The gzip level that uploads are compressed at (flate2's default).
pub const GZIP_LEVEL: u32 = 6;

/// Whether `data` opens as a zip archive.
pub fn is_zip(data: &[u8]) -> (res: bool)
    ensures
        res == zip_opens(data@),
{
    zip_open(data).is_ok()
}

/// What `compress` makes of `data`: a zip as it is, anything else gzip-compressed.
pub open spec fn spec_compress(data: Seq<u8>) -> Seq<u8> {
    if zip_opens(data) {
        data
    } else {
        gzip_encode(data, GZIP_LEVEL)
    }
}

/// The upload headers for a zip.
pub open spec fn zip_upload_headers() -> Seq<char> {
    r#"{"content_type":"application/zip"}"#@
}

/// The upload headers for gzip-compressed text.
pub open spec fn gzip_upload_headers() -> Seq<char> {
    r#"{"content_type":"text/plain", "content_encoding": "gzip"}"#@
}

/// The upload headers that go with `data`.
pub open spec fn spec_upload_headers(data: Seq<u8>) -> Seq<char> {
    if zip_opens(data) {
        zip_upload_headers()
    } else {
        gzip_upload_headers()
    }
}

/// Leaves a zip as it is and compresses anything else with gzip.
pub fn compress(data: &[u8]) -> (res: Result<Vec<u8>, std::io::Error>)
    ensures
        res matches Ok(v) && v@ == spec_compress(data@),
{
    if is_zip(data) {
        Ok(vstd::slice::slice_to_vec(data))
    } else {
        gzip_compress(data, GZIP_LEVEL)
    }
}

/// The HTTP headers, as JSON, that an upload of `data` goes with: a zip as it is, and
/// anything else as gzip-encoded text.
pub fn http_upload_headers(data: &[u8]) -> (res: String)
    ensures
        res@ == spec_upload_headers(data@),
{
    if is_zip(data) {
        r#"{"content_type":"application/zip"}"#.to_owned()
    } else {
        r#"{"content_type":"text/plain", "content_encoding": "gzip"}"#.to_owned()
    }
}

/// The upload headers describe the body that `compress` makes of the same data: when
/// they name a zip, the body is the data unchanged, and when they name gzip-encoded
/// text, the body is the gzip encoding of the data. Whatever the zip reader opens,
/// wherever in the data the archive starts, counts as a zip: it is left as it is and
/// announced as a zip; everything else is gzip-encoded and announced as such.
pub proof fn law_upload_headers_describe_body(data: Seq<u8>)
    ensures
        zip_opens(data) ==> spec_compress(data) == data,
        !zip_opens(data) ==> spec_compress(data) == gzip_encode(data, GZIP_LEVEL),
        spec_upload_headers(data) == zip_upload_headers() <==> zip_opens(data),
        spec_upload_headers(data) == gzip_upload_headers() <==> !zip_opens(data),
        spec_upload_headers(data) == zip_upload_headers() ==> spec_compress(data) == data,
        spec_upload_headers(data) == gzip_upload_headers() ==> spec_compress(data) == gzip_encode(
            data,
            GZIP_LEVEL,
        ),
{
    reveal_strlit(r#"{"content_type":"application/zip"}"#);
    reveal_strlit(r#"{"content_type":"text/plain", "content_encoding": "gzip"}"#);
    assert(zip_upload_headers().len() != gzip_upload_headers().len());
}

/// How far a read of a known total size has come, and when to report it.
pub struct ReadProgress {
    current_size: usize,
    total_size: usize,
    read_cycle: usize,
}

/// Progress is reported on every this many reads.
pub const REPORT_EVERY: usize = 100;

impl ReadProgress {
    /// The bytes read so far.
    pub closed spec fn current_view(&self) -> nat {
        self.current_size as nat
    }

    /// The bytes there are to read.
    pub closed spec fn total_view(&self) -> nat {
        self.total_size as nat
    }

    /// The reads so far.
    pub closed spec fn cycle_view(&self) -> nat {
        self.read_cycle as nat
    }

    /// Nothing read yet of `total_size` bytes.
    pub fn new(total_size: usize) -> (res: Self)
        ensures
            res.current_view() == 0,
            res.total_view() == total_size,
            res.cycle_view() == 0,
    {
        ReadProgress { current_size: 0, total_size, read_cycle: 0 }
    }

    /// The bytes read so far.
    pub fn current_size(&self) -> (res: usize)
        ensures
            res == self.current_view(),
    {
        self.current_size
    }

    /// The reads so far.
    pub fn read_cycle(&self) -> (res: usize)
        ensures
            res == self.cycle_view(),
    {
        self.read_cycle
    }

    /// Counts a read of `read` bytes. On every hundredth read it hands back the bytes
    /// read so far and the total, for the caller to report.
    pub fn record(&mut self, read: usize) -> (res: Option<(usize, usize)>)
        requires
            old(self).cycle_view() < usize::MAX,
            old(self).current_view() + read <= usize::MAX,
        ensures
            final(self).cycle_view() == old(self).cycle_view() + 1,
            final(self).current_view() == old(self).current_view() + read,
            final(self).total_view() == old(self).total_view(),
            res is Some <==> final(self).cycle_view() % (REPORT_EVERY as nat) == 0,
            res matches Some((current, total)) ==> current == final(self).current_view() && total
                == final(self).total_view(),
    {
        self.read_cycle += 1;
        self.current_size += read;
        if self.read_cycle % REPORT_EVERY == 0 {
            Some((self.current_size, self.total_size))
        } else {
            None
        }
    }
}

} // verus!
