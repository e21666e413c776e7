use crate::asar::{
    spec_has_header_line, spec_zip_file_header, spec_zip_order, AsarFile, AsarHeader, Game,
    Metadata,
};
use crate::errors::AsarError;
use crate::foreign::{
    brotli_compress, brotli_encode, inflate, raw_inflate, trim_end, trimmed_end, utf8_str,
    zip_entry, zip_entry_count, zip_entry_raw, zip_len, zip_offset, zip_open, zip_opens,
    zip_prefix_len, zip_source,
};
use crate::read::str_eq;
use vstd::bytes::{spec_u32_to_le_bytes, u32_to_le_bytes};
use vstd::prelude::*;
use vstd::utf8::{decode_utf8, valid_utf8};
use vstd::wrapping::u64_specs;

verus! {

/// The brotli quality that archives are compressed at.
pub const BROTLI_QUALITY: i32 = 9;

/// The brotli window size (as a power of two) that archives are compressed with.
pub const BROTLI_LGWIN: i32 = 22;

/// The index of the first element of `s` equal to `x`.
pub open spec fn first_of<T>(s: Seq<T>, x: T) -> Option<int>
    decreases s.len(),
{
    if s.len() == 0 {
        None
    } else {
        match first_of(s.drop_last(), x) {
            Some(i) => Some(i),
            None => if s.last() == x {
                Some(s.len() - 1)
            } else {
                None
            },
        }
    }
}

/// `first_of` finds the first occurrence and nothing else.
pub proof fn lemma_first_of<T>(s: Seq<T>, x: T)
    ensures
        first_of(s, x) matches Some(i) ==> 0 <= i < s.len() && s[i] == x && forall|j: int|
            0 <= j < i ==> s[j] != x,
        first_of(s, x) is None ==> forall|j: int| 0 <= j < s.len() ==> s[j] != x,
    decreases s.len(),
{
    if s.len() > 0 {
        let t = s.drop_last();
        lemma_first_of(t, x);
        assert forall|j: int| 0 <= j < t.len() implies t[j] == s[j] by {}
    }
}

/// A prefix that already holds `x` finds it where the whole sequence does.
proof fn lemma_first_of_prefix<T>(s: Seq<T>, x: T, k: int)
    requires
        0 <= k <= s.len(),
        first_of(s.take(k), x) is Some,
    ensures
        first_of(s, x) == first_of(s.take(k), x),
    decreases s.len() - k,
{
    if k < s.len() {
        assert(s.take(k + 1).drop_last() =~= s.take(k));
        lemma_first_of_prefix(s, x, k + 1);
    } else {
        assert(s.take(k) =~= s);
    }
}

/// One zip entry chosen for an archive: where it sits in the zip, its rank in the
/// game's order, its size in the archive, and where its compressed bytes lie.
#[derive(Clone, Copy, Debug, PartialEq, Eq, Structural)]
pub struct PlannedEntry {
    pub zip_pos: usize,
    pub order: usize,
    pub size: u64,
    pub data_start: u64,
    pub compressed_size: u64,
}

/// The entry planned for zip entry `index`, ranked `order`, as `meta` describes it;
/// every entry but the first loses the game's `hlen` header bytes from its size.
pub open spec fn planned_entry(
    index: int,
    order: int,
    meta: (Seq<char>, u64, u64, u64),
    hlen: int,
) -> PlannedEntry {
    PlannedEntry {
        zip_pos: index as usize,
        order: order as usize,
        size: if order == 0 {
            meta.1
        } else {
            u64_specs::wrapping_sub(meta.1, hlen as u64)
        },
        data_start: meta.2,
        compressed_size: meta.3,
    }
}

/// The entries chosen from the first `n` zip entries of `data`, in zip order: those
/// whose names appear in `order`. `Err(i)` when entry `i` is the first that cannot
/// be read.
pub open spec fn select_entries(data: Seq<u8>, order: Seq<Seq<char>>, hlen: int, n: nat) -> Result<
    Seq<PlannedEntry>,
    int,
>
    decreases n,
{
    if n == 0 {
        Ok(seq![])
    } else {
        match select_entries(data, order, hlen, (n - 1) as nat) {
            Err(i) => Err(i),
            Ok(s) => match zip_entry_raw(data, n - 1) {
                None => Err(n - 1),
                Some(meta) => match first_of(order, meta.0) {
                    None => Ok(s),
                    Some(o) => Ok(s.push(planned_entry(n - 1, o, meta, hlen))),
                },
            },
        }
    }
}

proof fn lemma_select_err_stays(data: Seq<u8>, order: Seq<Seq<char>>, hlen: int, k: nat, n: nat)
    requires
        k <= n,
        select_entries(data, order, hlen, k) is Err,
    ensures
        select_entries(data, order, hlen, n) == select_entries(data, order, hlen, k),
    decreases n - k,
{
    if k < n {
        lemma_select_err_stays(data, order, hlen, k, (n - 1) as nat);
    }
}

/// The entries of `s` ranked `o`, in the order they come in `s`.
pub open spec fn with_order(s: Seq<PlannedEntry>, o: int) -> Seq<PlannedEntry>
    decreases s.len(),
{
    if s.len() == 0 {
        seq![]
    } else {
        let r = with_order(s.drop_last(), o);
        if s.last().order == o {
            r.push(s.last())
        } else {
            r
        }
    }
}

/// The entries of `s` ranked below `k`, grouped by rank: rank 0 first, and entries of
/// one rank in the order they come in `s`.
pub open spec fn sorted_by_order(s: Seq<PlannedEntry>, k: nat) -> Seq<PlannedEntry>
    decreases k,
{
    if k == 0 {
        seq![]
    } else {
        sorted_by_order(s, (k - 1) as nat) + with_order(s, k - 1)
    }
}

/// Where entry `k` of `entries` starts in the data: the sizes before it, summed with
/// wrap-around.
pub open spec fn offset_before(entries: Seq<PlannedEntry>, k: int) -> u64
    decreases k,
{
    if k <= 0 {
        0
    } else {
        u64_specs::wrapping_add(offset_before(entries, k - 1), entries[k - 1].size)
    }
}

/// The file list of an archive that holds `entries`, named after `names`.
pub open spec fn planned_files(names: Seq<Seq<char>>, entries: Seq<PlannedEntry>) -> Seq<
    (Seq<char>, AsarFile),
> {
    Seq::new(
        entries.len(),
        |k: int|
            (
                names[entries[k].order as int],
                AsarFile { offset: offset_before(entries, k), size: entries[k].size },
            ),
    )
}

/// `files` name these files with these ranges, in this order.
pub open spec fn files_are(files: Seq<(String, AsarFile)>, expected: Seq<(Seq<char>, AsarFile)>) -> bool {
    &&& files.len() == expected.len()
    &&& forall|i: int|
        #![trigger files[i]]
        0 <= i < expected.len() ==> files[i].0@ == expected[i].0 && files[i].1 == expected[i].1
}

/// `h` holds these files, this game, this filename and this header line.
pub open spec fn header_is(
    h: AsarHeader,
    files: Seq<(Seq<char>, AsarFile)>,
    game: Game,
    filename: Seq<char>,
    line: Option<Seq<char>>,
) -> bool {
    &&& files_are(h.files@, files)
    &&& h.game == game
    &&& h.filename@ == filename
    &&& match (h.original_header_line, line) {
        (Some(a), Some(b)) => a@ == b,
        (None, None) => true,
        _ => false,
    }
}

/// Why a save could not be planned.
pub enum PlanFault {
    HeaderLine,
    HeaderEncoding,
    ZipIndex,
}

/// The header line of `line` with its seventh byte set to `'0'` when that byte was
/// even and to `'1'` when it was odd.
pub open spec fn rewritten_line(line: Seq<u8>) -> Seq<u8> {
    line.update(6, if line[6] % 2 == 0 {
        48u8
    } else {
        49u8
    })
}

/// The header line that a save in `data` starts with, for a game that has one: the
/// line as text without trailing whitespace, and the bytes that go in front of the
/// first entry of the archive.
pub open spec fn spec_header_line(data: Seq<u8>) -> Result<(Seq<char>, Seq<u8>), PlanFault> {
    match first_of(data.take(zip_prefix_len(data) as int), 10u8) {
        None => Err(PlanFault::HeaderLine),
        Some(p) => {
            let raw = data.take(p + 1);
            if raw.len() < 24 {
                Err(PlanFault::HeaderLine)
            } else if !valid_utf8(raw) {
                Err(PlanFault::HeaderEncoding)
            } else if !valid_utf8(rewritten_line(raw)) {
                Err(PlanFault::HeaderEncoding)
            } else {
                Ok((trimmed_end(decode_utf8(raw)), rewritten_line(raw)))
            }
        },
    }
}

/// What planning an archive for the zip in `data` gives: the original header line,
/// the bytes to put in front of the first entry, and the entries in archive order.
pub open spec fn spec_zip_plan(data: Seq<u8>, game: Game) -> Result<
    (Option<Seq<char>>, Seq<u8>, Seq<PlannedEntry>),
    PlanFault,
> {
    let line: Result<(Option<Seq<char>>, Seq<u8>), PlanFault> = if spec_has_header_line(game) {
        match spec_header_line(data) {
            Err(f) => Err(f),
            Ok((text, bytes)) => Ok((Some(text), bytes)),
        }
    } else {
        Ok((None, seq![]))
    };
    match line {
        Err(f) => Err(f),
        Ok((text, bytes)) => {
            let names = spec_zip_order(game);
            let hlen = spec_zip_file_header(game).len() as int;
            match select_entries(data, names, hlen, zip_entry_count(data)) {
                Err(_) => Err(PlanFault::ZipIndex),
                Ok(s) => Ok((text, bytes, sorted_by_order(s, names.len()))),
            }
        },
    }
}

/// What goes into the archive for `entry`: its inflated bytes, without the game's
/// `hlen` header bytes for every entry but the first, and after `line` for the first.
/// `None` when the entry's bytes lie outside `data`, cannot be inflated, or are
/// shorter than the header.
pub open spec fn spec_piece(data: Seq<u8>, entry: PlannedEntry, hlen: int, line: Seq<u8>) -> Option<
    Seq<u8>,
> {
    if entry.data_start + entry.compressed_size > data.len() {
        None
    } else {
        match raw_inflate(
            data.subrange(
                entry.data_start as int,
                entry.data_start + entry.compressed_size,
            ),
        ) {
            None => None,
            Some(m) => if entry.order != 0 {
                if m.len() < hlen {
                    None
                } else {
                    Some(m.skip(hlen))
                }
            } else {
                Some(line + m)
            },
        }
    }
}

/// The data section of an archive of `entries`: their pieces one after the other, or
/// `None` when some piece cannot be made.
pub open spec fn spec_body(data: Seq<u8>, entries: Seq<PlannedEntry>, hlen: int, line: Seq<u8>) -> Option<
    Seq<u8>,
>
    decreases entries.len(),
{
    if entries.len() == 0 {
        Some(seq![])
    } else {
        match spec_body(data, entries.drop_last(), hlen, line) {
            None => None,
            Some(prev) => match spec_piece(data, entries.last(), hlen, line) {
                None => None,
                Some(piece) => Some(prev + piece),
            },
        }
    }
}

proof fn lemma_body_none_stays(
    data: Seq<u8>,
    entries: Seq<PlannedEntry>,
    hlen: int,
    line: Seq<u8>,
    k: int,
)
    requires
        0 <= k <= entries.len(),
        spec_body(data, entries.take(k), hlen, line) is None,
    ensures
        spec_body(data, entries, hlen, line) is None,
    decreases entries.len() - k,
{
    if k < entries.len() {
        assert(entries.take(k + 1).drop_last() =~= entries.take(k));
        lemma_body_none_stays(data, entries, hlen, line, k + 1);
    } else {
        assert(entries.take(k) =~= entries);
    }
}

/// The padding that brings `n` up to a multiple of four.
pub open spec fn frame_padding(n: int) -> int {
    (4 - n % 4) % 4
}

/// The uncompressed front of an archive around the JSON header `json`: the magic
/// number, two header sizes, the JSON size, the JSON, and zero padding to a multiple
/// of four.
pub open spec fn spec_frame(json: Seq<u8>) -> Seq<u8> {
    let js = json.len() as int;
    let hs = js + frame_padding(js);
    spec_u32_to_le_bytes(4) + spec_u32_to_le_bytes((hs + 8) as u32) + spec_u32_to_le_bytes(
        (hs + 4) as u32,
    ) + spec_u32_to_le_bytes(js as u32) + json + Seq::new(frame_padding(js) as nat, |i: int| 0u8)
}

/// Appends `src` to `out`.
fn push_all(out: &mut Vec<u8>, src: &[u8])
    ensures
        final(out)@ == old(out)@ + src@,
{
    let ghost start = out@;
    let mut i: usize = 0;
    while i < src.len()
        invariant
            0 <= i <= src@.len(),
            out@ == start + src@.take(i as int),
        decreases src@.len() - i,
    {
        out.push(src[i]);
        i += 1;
        assert(src@.take(i as int) =~= src@.take(i - 1).push(src@[i - 1]));
    }
    assert(src@.take(i as int) =~= src@);
}

/// Puts the uncompressed front of an archive around the JSON header `json`.
pub fn frame_header(json: &[u8]) -> (res: Vec<u8>)
    requires
        json@.len() + 11 <= u32::MAX,
    ensures
        res@ == spec_frame(json@),
{
    let json_size = json.len();
    let padding = (4 - (json_size % 4)) % 4;
    let header_size = json_size + padding;
    let mut head = u32_to_le_bytes(4);
    let mut field = u32_to_le_bytes(header_size as u32 + 8);
    head.append(&mut field);
    let mut field = u32_to_le_bytes(header_size as u32 + 4);
    head.append(&mut field);
    let mut field = u32_to_le_bytes(json_size as u32);
    head.append(&mut field);
    push_all(&mut head, json);
    let ghost before = head@;
    let mut i: usize = 0;
    while i < padding
        invariant
            0 <= i <= padding,
            padding < 4,
            head@ == before + Seq::new(i as nat, |j: int| 0u8),
        decreases padding - i,
    {
        head.push(0);
        i += 1;
        assert(Seq::new(i as nat, |j: int| 0u8) =~= Seq::new((i - 1) as nat, |j: int| 0u8).push(0u8));
    }
    assert(head@ =~= spec_frame(json@));
    head
}


/// The index of the first name of `order` equal to `name`.
fn find_position(order: &[&str], name: &str) -> (res: Option<usize>)
    ensures
        res is None <==> first_of(order@.map_values(|s: &str| s@), name@) is None,
        res matches Some(r) ==> first_of(order@.map_values(|s: &str| s@), name@) == Some(
            r as int,
        ),
{
    let ghost names = order@.map_values(|s: &str| s@);
    let mut found: Option<usize> = None;
    let mut i: usize = 0;
    while i < order.len()
        invariant
            0 <= i <= order@.len(),
            names == order@.map_values(|s: &str| s@),
            found is None <==> first_of(names.take(i as int), name@) is None,
            found matches Some(r) ==> first_of(names.take(i as int), name@) == Some(r as int),
        decreases order@.len() - i,
    {
        proof {
            assert(names.take(i + 1).drop_last() =~= names.take(i as int));
            assert(names.take(i + 1).last() == order@[i as int]@);
        }
        if found.is_none() && str_eq(order[i], name) {
            found = Some(i);
        }
        i += 1;
    }
    assert(names.take(i as int) =~= names);
    found
}

/// The index of the first newline among the first `limit` bytes of `data`.
fn find_newline(data: &[u8], limit: usize) -> (res: Option<usize>)
    requires
        limit <= data@.len(),
    ensures
        res is None <==> first_of(data@.take(limit as int), 10u8) is None,
        res matches Some(r) ==> first_of(data@.take(limit as int), 10u8) == Some(r as int),
{
    let ghost pre = data@.take(limit as int);
    let mut i: usize = 0;
    while i < limit
        invariant
            0 <= i <= limit,
            limit <= data@.len(),
            pre == data@.take(limit as int),
            first_of(pre.take(i as int), 10u8) is None,
        decreases limit - i,
    {
        proof {
            assert(pre.take(i + 1).drop_last() =~= pre.take(i as int));
            assert(pre.take(i + 1).last() == data@[i as int]);
        }
        if data[i] == 10 {
            proof {
                lemma_first_of_prefix(pre, 10u8, i + 1);
            }
            return Some(i);
        }
        i += 1;
    }
    assert(pre.take(i as int) =~= pre);
    None
}

/// The entries of `s` ranked below `k`, grouped by rank, each rank in the order of `s`.
fn sort_by_order(s: &Vec<PlannedEntry>, k: usize) -> (res: Vec<PlannedEntry>)
    ensures
        res@ == sorted_by_order(s@, k as nat),
        forall|i: int| 0 <= i < res@.len() ==> res@[i].order < k,
{
    let mut out: Vec<PlannedEntry> = Vec::new();
    let mut o: usize = 0;
    while o < k
        invariant
            0 <= o <= k,
            out@ == sorted_by_order(s@, o as nat),
            forall|i: int| 0 <= i < out@.len() ==> out@[i].order < o,
        decreases k - o,
    {
        let ghost before = out@;
        let mut j: usize = 0;
        while j < s.len()
            invariant
                0 <= j <= s@.len(),
                o < k,
                before == sorted_by_order(s@, o as nat),
                out@ == before + with_order(s@.take(j as int), o as int),
                forall|i: int| 0 <= i < out@.len() ==> out@[i].order <= o,
            decreases s@.len() - j,
        {
            proof {
                assert(s@.take(j + 1).drop_last() =~= s@.take(j as int));
                assert(s@.take(j + 1).last() == s@[j as int]);
            }
            if s[j].order == o {
                out.push(s[j]);
            }
            j += 1;
        }
        assert(s@.take(j as int) =~= s@);
        o += 1;
    }
    out
}

/// The files of an archive with `file` alone, covering all `len` bytes.
pub open spec fn plain_files(filename: Seq<char>, len: nat) -> Seq<(Seq<char>, AsarFile)> {
    seq![(filename, AsarFile { offset: 0, size: len as u64 })]
}

/// An archive that is ready to be written once its header is encoded as JSON.
pub struct AsarPlan<'a> {
    input: &'a [u8],
    header: AsarHeader,
    entries: Vec<PlannedEntry>,
    header_line: Vec<u8>,
    file_header_len: usize,
    zipped: bool,
}

impl<'a> AsarPlan<'a> {
    /// The save the archive is made from.
    pub closed spec fn input_view(&self) -> Seq<u8> {
        self.input@
    }

    /// The header the archive will carry.
    pub closed spec fn header_view(&self) -> AsarHeader {
        self.header
    }

    /// The zip entries that go into the archive, in archive order.
    pub closed spec fn entries_view(&self) -> Seq<PlannedEntry> {
        self.entries@
    }

    /// The bytes that go in front of the first entry.
    pub closed spec fn line_view(&self) -> Seq<u8> {
        self.header_line@
    }

    /// How many header bytes each entry but the first loses.
    pub closed spec fn file_header_len_view(&self) -> int {
        self.file_header_len as int
    }

    /// Whether the save was a zip; otherwise the archive holds it whole.
    pub closed spec fn zipped_view(&self) -> bool {
        self.zipped
    }

    /// The header's file list describes the archive: for a zip, the planned entries
    /// named after the game's order, one after the other; otherwise the whole save.
    pub open spec fn well_formed(&self) -> bool {
        &&& self.input_view().len() <= u64::MAX
        &&& if self.zipped_view() {
            files_are(
                self.header_view().files@,
                planned_files(spec_zip_order(self.header_view().game), self.entries_view()),
            )
        } else {
            files_are(
                self.header_view().files@,
                plain_files(self.header_view().filename@, self.input_view().len()),
            )
        }
    }

    /// The data section of the archive, or `None` when some entry cannot be inflated.
    pub open spec fn body_view(&self) -> Option<Seq<u8>> {
        if self.zipped_view() {
            spec_body(
                self.input_view(),
                self.entries_view(),
                self.file_header_len_view(),
                self.line_view(),
            )
        } else {
            Some(self.input_view())
        }
    }


    /// Plans the archive of a save: a zip save becomes the entries that the game
    /// names, in the game's order; any other save is held whole.
    pub fn new(input: &'a [u8], game: Game, meta: &Metadata) -> (res: Result<Self, AsarError>)
        ensures
            res matches Ok(p) ==> p.well_formed(),
            zip_opens(input@) && spec_has_header_line(game) ==> zip_prefix_len(input@)
                <= input@.len(),
            !zip_opens(input@) ==> (res matches Ok(p) && !p.zipped_view() && p.input_view()
                == input@ && header_is(
                p.header_view(),
                plain_files(meta.filename@, input@.len()),
                game,
                meta.filename@,
                None,
            )),
            zip_opens(input@) ==> match spec_zip_plan(input@, game) {
                Err(PlanFault::HeaderLine) => res matches Err(e) && e is HeaderLine,
                Err(PlanFault::HeaderEncoding) => res matches Err(e) && e is HeaderEncoding,
                Err(PlanFault::ZipIndex) => res matches Err(e) && e is ZipIndex,
                Ok((text, bytes, entries)) => res matches Ok(p) && p.zipped_view()
                    && p.input_view() == input@ && p.entries_view() == entries && p.line_view()
                    == bytes && p.file_header_len_view() == spec_zip_file_header(game).len()
                    && header_is(
                    p.header_view(),
                    planned_files(spec_zip_order(game), entries),
                    game,
                    meta.filename@,
                    text,
                ),
            },
    {
        let input_len = input.len();
        let mut zip = match zip_open(input) {
            Ok(zip) => zip,
            Err(_) => {
                let mut files: Vec<(String, AsarFile)> = Vec::new();
                files.push((meta.filename.to_owned(), AsarFile { offset: 0, size: input.len() as u64 }));
                let header = AsarHeader {
                    files,
                    game,
                    filename: meta.filename.to_owned(),
                    original_header_line: None,
                };
                return Ok(
                    AsarPlan {
                        input,
                        header,
                        entries: Vec::new(),
                        header_line: Vec::new(),
                        file_header_len: 0,
                        zipped: false,
                    },
                );
            },
        };
        let mut original_header_line: Option<String> = None;
        let mut header_line: Vec<u8> = Vec::new();
        if game.has_header_line() {
            let offset = zip_offset(&zip);
            assert(offset <= input_len);
            let prefix_len = offset as usize;
            let pos = match find_newline(input, prefix_len) {
                Some(p) => p,
                None => return Err(AsarError::HeaderLine),
            };
            proof {
                lemma_first_of(input@.take(prefix_len as int), 10u8);
            }
            let raw_line = vstd::slice::slice_subrange(input, 0, pos + 1);
            assert(raw_line@ =~= input@.take(pos + 1));
            if raw_line.len() < 24 {
                return Err(AsarError::HeaderLine);
            }
            let text = match utf8_str(raw_line) {
                Ok(t) => t,
                Err(e) => return Err(AsarError::HeaderEncoding(e)),
            };
            let trimmed = trim_end(text).to_owned();
            let mut raw_new = vstd::slice::slice_to_vec(raw_line);
            let b = raw_new[6];
            proof {
                assert(b & 1 == 0 <==> b % 2 == 0) by (bit_vector);
            }
            let digit: u8 = if b & 1 == 0 {
                48
            } else {
                49
            };
            raw_new.set(6, digit);
            assert(raw_new@ =~= rewritten_line(raw_line@));
            match utf8_str(raw_new.as_slice()) {
                Ok(_) => {},
                Err(e) => return Err(AsarError::HeaderEncoding(e)),
            }
            original_header_line = Some(trimmed);
            header_line = raw_new;
        }
        let order = game.zip_order();
        let ghost names = spec_zip_order(game);
        let hlen = game.zip_file_header().len();
        let n = zip_len(&zip);
        let mut selected: Vec<PlannedEntry> = Vec::new();
        let mut i: usize = 0;
        while i < n
            invariant
                0 <= i <= n,
                n == zip_entry_count(input@),
                zip_source(zip) == input@,
                zip_opens(input@),
                spec_has_header_line(game) ==> spec_header_line(input@) is Ok,
                spec_has_header_line(game) ==> zip_prefix_len(input@) <= input@.len(),
                names == spec_zip_order(game),
                names == order@.map_values(|s: &str| s@),
                hlen == spec_zip_file_header(game).len(),
                select_entries(input@, names, hlen as int, i as nat) == Ok::<
                    Seq<PlannedEntry>,
                    int,
                >(selected@),
            decreases n - i,
        {
            let meta_i = match zip_entry(&mut zip, i) {
                Ok(m) => m,
                Err(e) => {
                    proof {
                        lemma_select_err_stays(input@, names, hlen as int, (i + 1) as nat, n as nat);
                    }
                    return Err(AsarError::ZipIndex(e));
                },
            };
            match find_position(order, meta_i.name.as_str()) {
                Some(o) => {
                    let size = if o == 0 {
                        meta_i.size
                    } else {
                        meta_i.size.wrapping_sub(hlen as u64)
                    };
                    selected.push(
                        PlannedEntry {
                            zip_pos: i,
                            order: o,
                            size,
                            data_start: meta_i.data_start,
                            compressed_size: meta_i.compressed_size,
                        },
                    );
                },
                None => {},
            }
            i += 1;
        }
        let entries = sort_by_order(&selected, order.len());
        let mut files: Vec<(String, AsarFile)> = Vec::new();
        let mut offset: u64 = 0;
        let mut k: usize = 0;
        while k < entries.len()
            invariant
                0 <= k <= entries@.len(),
                names == order@.map_values(|s: &str| s@),
                forall|j: int| 0 <= j < entries@.len() ==> entries@[j].order < order@.len(),
                offset == offset_before(entries@, k as int),
                files@.len() == k,
                forall|j: int|
                    #![trigger files@[j]]
                    0 <= j < k ==> files@[j].0@ == planned_files(names, entries@)[j].0
                        && files@[j].1 == planned_files(names, entries@)[j].1,
            decreases entries@.len() - k,
        {
            let e = entries[k];
            files.push((order[e.order].to_owned(), AsarFile { offset, size: e.size }));
            offset = offset.wrapping_add(e.size);
            k += 1;
        }
        let header = AsarHeader {
            files,
            game,
            filename: meta.filename.to_owned(),
            original_header_line,
        };
        Ok(
            AsarPlan {
                input,
                header,
                entries,
                header_line,
                file_header_len: hlen,
                zipped: true,
            },
        )
    }

    /// The header the archive will carry, to be encoded as JSON.
    pub fn header(&self) -> (res: &AsarHeader)
        ensures
            *res == self.header_view(),
    {
        &self.header
    }

    /// Writes the archive: the framed JSON header `json` followed by the data section,
    /// compressed with brotli.
    pub fn encode(&self, json: &[u8]) -> (res: Result<Vec<u8>, AsarError>)
        requires
            json@.len() + 11 <= u32::MAX,
        ensures
            match self.body_view() {
                None => res matches Err(e) && e is ZipBadData,
                Some(body) => res matches Ok(v) && v@ == brotli_encode(
                    spec_frame(json@) + body,
                    BROTLI_QUALITY,
                    BROTLI_LGWIN,
                ),
            },
    {
        let mut payload = frame_header(json);
        let ghost head = payload@;
        if !self.zipped {
            push_all(&mut payload, self.input);
        } else {
            let input = self.input;
            let len = input.len();
            let hlen = self.file_header_len;
            let entries = &self.entries;
            let n = entries.len();
            let ghost line = self.header_line@;
            let mut k: usize = 0;
            while k < n
                invariant
                    0 <= k <= n,
                    n == entries@.len(),
                    len == input@.len(),
                    entries == &self.entries,
                    input == self.input,
                    self.zipped,
                    hlen == self.file_header_len,
                    line == self.header_line@,
                    spec_body(input@, entries@.take(k as int), hlen as int, line) matches Some(
                        b,
                    ) && payload@ == head + b,
                decreases n - k,
            {
                let e = entries[k];
                proof {
                    assert(entries@.take(k + 1).drop_last() =~= entries@.take(k as int));
                    assert(entries@.take(k + 1).last() == e);
                }
                if e.data_start > len as u64 || e.compressed_size > len as u64 - e.data_start {
                    proof {
                        lemma_body_none_stays(input@, entries@, hlen as int, line, k + 1);
                    }
                    return Err(
                        AsarError::ZipBadData {
                            msg: "compressed entry lies outside the input".to_owned(),
                        },
                    );
                }
                let start = e.data_start as usize;
                let end = (e.data_start + e.compressed_size) as usize;
                let chunk = vstd::slice::slice_subrange(input, start, end);
                let inflated = match inflate(chunk) {
                    Ok(v) => v,
                    Err(msg) => {
                        proof {
                            lemma_body_none_stays(input@, entries@, hlen as int, line, k + 1);
                        }
                        return Err(AsarError::ZipBadData { msg });
                    },
                };
                if e.order != 0 {
                    if inflated.len() < hlen {
                        proof {
                            lemma_body_none_stays(input@, entries@, hlen as int, line, k + 1);
                        }
                        return Err(
                            AsarError::ZipBadData { msg: "failed to fill whole buffer".to_owned() },
                        );
                    }
                    let rest = vstd::slice::slice_subrange(
                        inflated.as_slice(),
                        hlen,
                        inflated.len(),
                    );
                    assert(rest@ =~= inflated@.skip(hlen as int));
                    push_all(&mut payload, rest);
                } else {
                    push_all(&mut payload, self.header_line.as_slice());
                    push_all(&mut payload, inflated.as_slice());
                }
                k += 1;
            }
            assert(entries@.take(n as int) =~= entries@);
        }
        match brotli_compress(payload.as_slice(), BROTLI_QUALITY, BROTLI_LGWIN) {
            Ok(out) => Ok(out),
            Err(e) => Err(AsarError::Compression(e)),
        }
    }
}

} // verus!
