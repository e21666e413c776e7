use crate::asar::{spec_file_slice, spec_has_header_line, spec_zip_order, AsarFile, Game};
use crate::bytes::le_u32_at;
use crate::foreign::{is_white_space, raw_inflate, trimmed_end, zip_prefix_len};
use vstd::utf8::{decode_utf8, encode_scalar, encode_utf8, valid_utf8};
use crate::read::{asar_data, asar_frame_ok, asar_header_json, asar_json_ok};
use crate::write::{
    lemma_first_of, offset_before, rewritten_line, sorted_by_order, spec_body, spec_frame,
    spec_header_line, spec_piece, spec_zip_plan, planned_entry, with_order, AsarPlan,
    PlannedEntry,
};
use vstd::bytes::{lemma_auto_spec_u32_to_from_le_bytes, spec_u32_to_le_bytes};
use vstd::prelude::*;

verus! {

/// Reading the frame written around a JSON header gives back that header, and the
/// bytes after the frame as the data: whatever follows `frame_header(json)` is what
/// `AsarArchive::try_parse` takes as the file data, and `AsarArchive::header_json`
/// finds `json`. The frame itself is padded to a multiple of four bytes.
pub proof fn law_frame_read_back(json: Seq<u8>, body: Seq<u8>)
    requires
        json.len() + 11 <= u32::MAX,
    ensures
        asar_json_ok(spec_frame(json) + body),
        asar_frame_ok(spec_frame(json) + body),
        asar_header_json(spec_frame(json) + body) == json,
        asar_data(spec_frame(json) + body) == body,
        spec_frame(json).len() % 4 == 0,
{
    lemma_auto_spec_u32_to_from_le_bytes();
    let js = json.len() as int;
    let pad = (4 - js % 4) % 4;
    let hs = js + pad;
    let a = spec_u32_to_le_bytes(4);
    let f1 = spec_u32_to_le_bytes((hs + 8) as u32);
    let f2 = spec_u32_to_le_bytes((hs + 4) as u32);
    let f3 = spec_u32_to_le_bytes(js as u32);
    let zeros = Seq::new(pad as nat, |i: int| 0u8);
    let frame = spec_frame(json);
    assert(frame == a + f1 + f2 + f3 + json + zeros);
    let b = frame + body;
    assert(b.subrange(0, 4) =~= a);
    assert(b.subrange(8, 12) =~= f2);
    assert(b.subrange(12, 16) =~= f3);
    assert(frame.len() == 16 + hs);
    assert(b.subrange(16, 16 + js) =~= json);
    assert(b.subrange(16 + hs, b.len() as int) =~= body);
}

/// The sum of the sizes of the first `k` entries, without wrap-around.
pub open spec fn sum_sizes(entries: Seq<PlannedEntry>, k: int) -> int
    decreases k,
{
    if k <= 0 {
        0
    } else {
        sum_sizes(entries, k - 1) + entries[k - 1].size
    }
}

proof fn lemma_sum_sizes_monotone(entries: Seq<PlannedEntry>, j: int, k: int)
    requires
        0 <= j <= k,
    ensures
        sum_sizes(entries, j) <= sum_sizes(entries, k),
    decreases k - j,
{
    if j < k {
        lemma_sum_sizes_monotone(entries, j, k - 1);
    }
}

proof fn lemma_offsets_without_wrap(entries: Seq<PlannedEntry>, k: int)
    requires
        0 <= k <= entries.len(),
        sum_sizes(entries, k) <= u64::MAX,
    ensures
        offset_before(entries, k) == sum_sizes(entries, k),
    decreases k,
{
    if k > 0 {
        lemma_sum_sizes_monotone(entries, k - 1, k);
        lemma_offsets_without_wrap(entries, k - 1);
    }
}

/// Every entry can be made into a piece as long as its size says.
pub open spec fn pieces_fit(
    data: Seq<u8>,
    entries: Seq<PlannedEntry>,
    hlen: int,
    line: Seq<u8>,
) -> bool {
    forall|j: int|
        #![trigger entries[j]]
        0 <= j < entries.len() ==> (spec_piece(data, entries[j], hlen, line) matches Some(p)
            && p.len() == entries[j].size)
}

proof fn lemma_body_prefix(
    data: Seq<u8>,
    entries: Seq<PlannedEntry>,
    hlen: int,
    line: Seq<u8>,
    k: int,
)
    requires
        0 <= k <= entries.len(),
        pieces_fit(data, entries, hlen, line),
    ensures
        spec_body(data, entries.take(k), hlen, line) matches Some(b) && b.len() == sum_sizes(
            entries,
            k,
        ),
        k > 0 ==> spec_body(data, entries.take(k), hlen, line).unwrap() == spec_body(
            data,
            entries.take(k - 1),
            hlen,
            line,
        ).unwrap() + spec_piece(data, entries[k - 1], hlen, line).unwrap(),
    decreases k,
{
    if k > 0 {
        lemma_body_prefix(data, entries, hlen, line, k - 1);
        assert(entries.take(k).drop_last() =~= entries.take(k - 1));
        assert(entries.take(k).last() == entries[k - 1]);
    } else {
        assert(entries.take(0) =~= Seq::<PlannedEntry>::empty());
    }
}

proof fn lemma_body_extends(
    data: Seq<u8>,
    entries: Seq<PlannedEntry>,
    hlen: int,
    line: Seq<u8>,
    k: int,
    n: int,
)
    requires
        0 <= k <= n <= entries.len(),
        pieces_fit(data, entries, hlen, line),
    ensures
        spec_body(data, entries.take(n), hlen, line).unwrap().subrange(0, sum_sizes(entries, k))
            == spec_body(data, entries.take(k), hlen, line).unwrap(),
    decreases n - k,
{
    lemma_body_prefix(data, entries, hlen, line, k);
    lemma_body_prefix(data, entries, hlen, line, n);
    if k < n {
        lemma_body_extends(data, entries, hlen, line, k, n - 1);
        lemma_body_prefix(data, entries, hlen, line, n - 1);
        lemma_sum_sizes_monotone(entries, k, n - 1);
        let whole = spec_body(data, entries.take(n), hlen, line).unwrap();
        let before = spec_body(data, entries.take(n - 1), hlen, line).unwrap();
        assert(whole.subrange(0, sum_sizes(entries, k)) =~= before.subrange(
            0,
            sum_sizes(entries, k),
        ));
    } else {
        let whole = spec_body(data, entries.take(n), hlen, line).unwrap();
        assert(whole.subrange(0, sum_sizes(entries, k)) =~= whole);
    }
}

/// When every zip entry inflates to the size the zip declares for it (less the game's
/// header) and the sizes add up without overflow, the range that the archive's file
/// list gives entry `k` holds exactly that entry's piece of the data section.
pub proof fn law_entry_read_back(
    data: Seq<u8>,
    entries: Seq<PlannedEntry>,
    hlen: int,
    line: Seq<u8>,
    k: int,
)
    requires
        0 <= k < entries.len(),
        pieces_fit(data, entries, hlen, line),
        sum_sizes(entries, entries.len() as int) <= u64::MAX,
    ensures
        spec_body(data, entries, hlen, line) is Some,
        spec_file_slice(
            AsarFile { offset: offset_before(entries, k), size: entries[k].size },
            spec_body(data, entries, hlen, line).unwrap(),
        ) == spec_piece(data, entries[k], hlen, line),
{
    let n = entries.len() as int;
    assert(entries.take(n) =~= entries);
    lemma_body_prefix(data, entries, hlen, line, n);
    lemma_body_prefix(data, entries, hlen, line, k + 1);
    lemma_body_extends(data, entries, hlen, line, k + 1, n);
    lemma_sum_sizes_monotone(entries, k, k + 1);
    lemma_sum_sizes_monotone(entries, k + 1, n);
    lemma_offsets_without_wrap(entries, k);
    let whole = spec_body(data, entries, hlen, line).unwrap();
    let upto = spec_body(data, entries.take(k + 1), hlen, line).unwrap();
    let piece = spec_piece(data, entries[k], hlen, line).unwrap();
    let start = sum_sizes(entries, k);
    let end = sum_sizes(entries, k + 1);
    assert(whole.subrange(start, end) =~= upto.subrange(start, end));
    assert(upto.subrange(start, end) =~= piece);
}

/// What an archive's file list says of a zip entry is where that entry's piece lies
/// in the data section, whenever every entry inflates to its declared size and the
/// sizes add up without overflow.
pub proof fn law_plan_read_back(plan: AsarPlan, k: int)
    requires
        plan.well_formed(),
        plan.zipped_view(),
        0 <= k < plan.entries_view().len(),
        pieces_fit(
            plan.input_view(),
            plan.entries_view(),
            plan.file_header_len_view(),
            plan.line_view(),
        ),
        sum_sizes(plan.entries_view(), plan.entries_view().len() as int) <= u64::MAX,
    ensures
        plan.body_view() is Some,
        spec_file_slice(plan.header_view().files@[k].1, plan.body_view().unwrap()) == spec_piece(
            plan.input_view(),
            plan.entries_view()[k],
            plan.file_header_len_view(),
            plan.line_view(),
        ),
{
    law_entry_read_back(
        plan.input_view(),
        plan.entries_view(),
        plan.file_header_len_view(),
        plan.line_view(),
        k,
    );
    assert(plan.header_view().files@[k].1 == AsarFile {
        offset: offset_before(plan.entries_view(), k),
        size: plan.entries_view()[k].size,
    });
}

/// A save that is not a zip is written whole, and the one file of its archive covers
/// all of it.
pub proof fn law_whole_plan_read_back(plan: AsarPlan)
    requires
        plan.well_formed(),
        !plan.zipped_view(),
    ensures
        plan.body_view() == Some(plan.input_view()),
        plan.header_view().files@.len() == 1,
        spec_file_slice(plan.header_view().files@[0].1, plan.body_view().unwrap()) == Some(
            plan.input_view(),
        ),
{
    let input = plan.input_view();
    assert(plan.header_view().files@[0].1 == AsarFile { offset: 0, size: input.len() as u64 });
    assert(input.subrange(0, input.len() as int) =~= input);
}

proof fn lemma_with_order(s: Seq<PlannedEntry>, o: int)
    ensures
        forall|i: int|
            0 <= i < with_order(s, o).len() ==> #[trigger] with_order(s, o)[i].order == o,
        forall|x: PlannedEntry|
            #[trigger] with_order(s, o).to_multiset().count(x) == if x.order == o {
                s.to_multiset().count(x)
            } else {
                0
            },
    decreases s.len(),
{
    broadcast use vstd::seq_lib::group_to_multiset_ensures;

    if s.len() == 0 {
        assert(with_order(s, o).to_multiset() =~= vstd::multiset::Multiset::empty());
        assert(s.to_multiset() =~= vstd::multiset::Multiset::empty());
    } else {
        let t = s.drop_last();
        let a = s.last();
        let r = with_order(t, o);
        lemma_with_order(t, o);
        assert(s =~= t.push(a));
        assert(s.to_multiset() =~= t.to_multiset().insert(a));
        if a.order == o {
            assert(with_order(s, o) == r.push(a));
            assert(r.push(a).to_multiset() =~= r.to_multiset().insert(a));
            assert forall|i: int| 0 <= i < r.push(a).len() implies #[trigger] r.push(a)[i].order
                == o by {
                if i < r.len() {
                    assert(r.push(a)[i] == r[i]);
                }
            }
        } else {
            assert(with_order(s, o) == r);
        }
        assert forall|x: PlannedEntry| #[trigger] with_order(s, o).to_multiset().count(x) == if x.order
            == o {
            s.to_multiset().count(x)
        } else {
            0
        } by {
            broadcast use vstd::multiset::group_multiset_axioms;

        }
    }
}

proof fn lemma_sorted_by_order(s: Seq<PlannedEntry>, k: nat)
    ensures
        forall|i: int|
            0 <= i < sorted_by_order(s, k).len() ==> #[trigger] sorted_by_order(s, k)[i].order < k,
        forall|i: int, j: int|
            0 <= i < j < sorted_by_order(s, k).len() ==> #[trigger] sorted_by_order(s, k)[i].order
                <= #[trigger] sorted_by_order(s, k)[j].order,
        forall|x: PlannedEntry|
            #[trigger] sorted_by_order(s, k).to_multiset().count(x) == if x.order < k {
                s.to_multiset().count(x)
            } else {
                0
            },
    decreases k,
{
    broadcast use vstd::seq_lib::lemma_multiset_commutative;

    if k == 0 {
        assert(sorted_by_order(s, k).to_multiset() =~= vstd::multiset::Multiset::empty()) by {
            broadcast use vstd::seq_lib::group_to_multiset_ensures;

        }
    } else {
        let prev = sorted_by_order(s, (k - 1) as nat);
        let last = with_order(s, k - 1);
        lemma_sorted_by_order(s, (k - 1) as nat);
        lemma_with_order(s, k - 1);
        assert(sorted_by_order(s, k) == prev + last);
        assert forall|i: int| 0 <= i < (prev + last).len() implies #[trigger] (prev + last)[i].order
            < k by {
            if i >= prev.len() {
                assert((prev + last)[i] == last[i - prev.len()]);
            }
        }
        assert forall|i: int, j: int| 0 <= i < j < (prev + last).len() implies #[trigger] (prev
            + last)[i].order <= #[trigger] (prev + last)[j].order by {
            if j >= prev.len() {
                assert((prev + last)[j] == last[j - prev.len()]);
            }
            if i >= prev.len() {
                assert((prev + last)[i] == last[i - prev.len()]);
            }
        }
        assert forall|x: PlannedEntry| #[trigger] (prev + last).to_multiset().count(x) == if x.order
            < k {
            s.to_multiset().count(x)
        } else {
            0
        } by {
            assert((prev + last).to_multiset() =~= prev.to_multiset().add(last.to_multiset()));
        }
    }
}

/// The entries of an archive come rank by rank: ranks never decrease along the
/// archive, and when every chosen entry ranks below `k`, the archive holds exactly the
/// chosen entries, each as many times as it was chosen.
pub proof fn law_archive_order(s: Seq<PlannedEntry>, k: nat)
    ensures
        forall|i: int, j: int|
            0 <= i < j < sorted_by_order(s, k).len() ==> #[trigger] sorted_by_order(s, k)[i].order
                <= #[trigger] sorted_by_order(s, k)[j].order,
        (forall|i: int| 0 <= i < s.len() ==> #[trigger] s[i].order < k) ==> sorted_by_order(
            s,
            k,
        ).to_multiset() == s.to_multiset(),
{
    lemma_sorted_by_order(s, k);
    if forall|i: int| 0 <= i < s.len() ==> #[trigger] s[i].order < k {
        assert forall|x: PlannedEntry| #[trigger] sorted_by_order(s, k).to_multiset().count(x)
            == s.to_multiset().count(x) by {
            if x.order >= k && s.to_multiset().count(x) > 0 {
                broadcast use vstd::seq_lib::group_to_multiset_ensures;

                assert(s.contains(x));
            }
        }
        assert(sorted_by_order(s, k).to_multiset() =~= s.to_multiset());
    }
}

/// The header line keeps all its bytes but the seventh, which becomes `'0'` or `'1'`
/// and keeps its parity: an even digit becomes `'0'`, an odd one `'1'`.
pub proof fn law_rewritten_line(line: Seq<u8>)
    requires
        line.len() > 6,
    ensures
        rewritten_line(line).len() == line.len(),
        forall|i: int| 0 <= i < line.len() && i != 6 ==> #[trigger] rewritten_line(line)[i]
            == line[i],
        rewritten_line(line)[6] == 48 || rewritten_line(line)[6] == 49,
        rewritten_line(line)[6] % 2 == line[6] % 2,
{
}

/// The frame's fields describe the frame: it starts with the magic number 4; the
/// second field is the size of everything after the first eight bytes; the third is
/// the size of everything after the first twelve; the fourth is the JSON's size; the
/// JSON follows the sixteen-byte prefix; and fewer than four zero bytes pad the frame
/// to a multiple of four.
pub proof fn law_frame_fields(json: Seq<u8>)
    requires
        json.len() + 11 <= u32::MAX,
    ensures
        le_u32_at(spec_frame(json), 0) == 4,
        le_u32_at(spec_frame(json), 4) == spec_frame(json).len() - 8,
        le_u32_at(spec_frame(json), 8) == spec_frame(json).len() - 12,
        le_u32_at(spec_frame(json), 12) == json.len(),
        spec_frame(json).subrange(16, 16 + json.len() as int) == json,
        spec_frame(json).len() % 4 == 0,
        16 + json.len() <= spec_frame(json).len() < 16 + json.len() + 4,
        forall|i: int|
            16 + json.len() <= i < spec_frame(json).len() ==> #[trigger] spec_frame(json)[i] == 0,
{
    lemma_auto_spec_u32_to_from_le_bytes();
    let js = json.len() as int;
    let pad = (4 - js % 4) % 4;
    let hs = js + pad;
    let a = spec_u32_to_le_bytes(4);
    let f1 = spec_u32_to_le_bytes((hs + 8) as u32);
    let f2 = spec_u32_to_le_bytes((hs + 4) as u32);
    let f3 = spec_u32_to_le_bytes(js as u32);
    let zeros = Seq::new(pad as nat, |i: int| 0u8);
    let frame = spec_frame(json);
    assert(frame == a + f1 + f2 + f3 + json + zeros);
    assert(frame.subrange(0, 4) =~= a);
    assert(frame.subrange(4, 8) =~= f1);
    assert(frame.subrange(8, 12) =~= f2);
    assert(frame.subrange(12, 16) =~= f3);
    assert(frame.subrange(16, 16 + js) =~= json);
    assert forall|i: int| 16 + js <= i < frame.len() implies #[trigger] frame[i] == 0 by {
        assert(frame[i] == zeros[i - 16 - js]);
    }
}

/// What goes into the data section for a zip entry, in terms of its inflated bytes
/// `m`: an entry ranked after the first loses exactly its first `hlen` bytes, whatever
/// they are, and fails only when it has fewer; the first entry is the header line
/// followed by all of `m`.
pub proof fn law_piece_of_entry(data: Seq<u8>, entry: PlannedEntry, hlen: int, line: Seq<u8>)
    requires
        0 <= hlen,
        entry.data_start + entry.compressed_size <= data.len(),
    ensures
        ({
            let chunk = data.subrange(
                entry.data_start as int,
                entry.data_start + entry.compressed_size,
            );
            &&& raw_inflate(chunk) is None ==> spec_piece(data, entry, hlen, line) is None
            &&& raw_inflate(chunk) matches Some(m) ==> {
                &&& entry.order != 0 ==> {
                    &&& spec_piece(data, entry, hlen, line) is Some <==> m.len() >= hlen
                    &&& spec_piece(data, entry, hlen, line) matches Some(p) ==> {
                        &&& p.len() == m.len() - hlen
                        &&& forall|i: int| 0 <= i < p.len() ==> #[trigger] p[i] == m[i + hlen]
                    }
                }
                &&& entry.order == 0 ==> spec_piece(data, entry, hlen, line) is Some
                &&& entry.order == 0 ==> (spec_piece(data, entry, hlen, line) matches Some(p) ==> {
                    &&& p.len() == line.len() + m.len()
                    &&& forall|i: int| 0 <= i < line.len() ==> #[trigger] p[i] == line[i]
                    &&& forall|i: int| 0 <= i < m.len() ==> #[trigger] p[line.len() + i] == m[i]
                })
            }
        }),
{
}

/// The size that the file list records for a zip entry is the length of what is
/// written for it, whenever the entry inflates to the size that the zip declares: an
/// entry ranked after the first is recorded at its declared size less the game's
/// header, and the first, with nothing in front of it, at its declared size.
pub proof fn law_piece_matches_recorded_size(
    data: Seq<u8>,
    index: int,
    order: int,
    meta: (Seq<char>, u64, u64, u64),
    hlen: int,
    line: Seq<u8>,
)
    requires
        0 <= order <= usize::MAX,
        0 <= hlen,
        meta.2 + meta.3 <= data.len(),
        raw_inflate(data.subrange(meta.2 as int, meta.2 + meta.3)) matches Some(m) && m.len()
            == meta.1,
        order != 0 ==> meta.1 >= hlen,
        order == 0 ==> line.len() == 0,
    ensures
        spec_piece(data, planned_entry(index, order, meta, hlen), hlen, line) matches Some(p)
            && p.len() == planned_entry(index, order, meta, hlen).size,
{
    assert(data.subrange(meta.2 as int, meta.2 + meta.3) == data.subrange(
        planned_entry(index, order, meta, hlen).data_start as int,
        planned_entry(index, order, meta, hlen).data_start + planned_entry(
            index,
            order,
            meta,
            hlen,
        ).compressed_size,
    ));
    let m = raw_inflate(data.subrange(meta.2 as int, meta.2 + meta.3)).unwrap();
    let e = planned_entry(index, order, meta, hlen);
    if order == 0 {
        assert(e.order == 0);
        assert(line + m =~= m);
    } else {
        assert(e.order != 0);
        assert(e.size == meta.1 - hlen);
        assert(m.skip(hlen).len() == m.len() - hlen);
    }
}

/// An entry whose compressed bytes lie outside the save cannot go into the archive.
pub proof fn law_piece_outside_input(data: Seq<u8>, entry: PlannedEntry, hlen: int, line: Seq<u8>)
    requires
        entry.data_start + entry.compressed_size > data.len(),
    ensures
        spec_piece(data, entry, hlen, line) is None,
{
}

proof fn lemma_trimmed_prefix(s: Seq<char>)
    ensures
        trimmed_end(s).len() <= s.len(),
        trimmed_end(s) == s.take(trimmed_end(s).len() as int),
        s.len() > 0 && is_white_space(s.last()) ==> trimmed_end(s).len() < s.len(),
        trimmed_end(s).len() == 0 || !is_white_space(trimmed_end(s).last()),
    decreases s.len(),
{
    if s.len() > 0 && is_white_space(s.last()) {
        let t = s.drop_last();
        lemma_trimmed_prefix(t);
        assert(t.take(trimmed_end(t).len() as int) =~= s.take(trimmed_end(t).len() as int));
    } else {
        assert(s.take(s.len() as int) =~= s);
    }
}

proof fn lemma_encode_concat(a: Seq<char>, b: Seq<char>)
    ensures
        encode_utf8(a + b) == encode_utf8(a) + encode_utf8(b),
    decreases a.len(),
{
    if a.len() == 0 {
        assert(a + b =~= b);
        assert(encode_utf8(a) + encode_utf8(b) =~= encode_utf8(b));
    } else {
        lemma_encode_concat(a.drop_first(), b);
        assert((a + b).drop_first() =~= a.drop_first() + b);
        assert((a + b)[0] == a[0]);
        let e = encode_scalar(a[0] as u32);
        assert(e + (encode_utf8(a.drop_first()) + encode_utf8(b)) =~= (e + encode_utf8(
            a.drop_first(),
        )) + encode_utf8(b));
    }
}

proof fn lemma_encode_nonempty(c: Seq<char>)
    requires
        c.len() > 0,
    ensures
        encode_utf8(c).len() > 0,
{
    assert(encode_scalar(c[0] as u32).len() > 0);
}

proof fn lemma_newline_byte(c: Seq<char>, j: int)
    requires
        0 <= j < c.len(),
        c[j] == '\n',
    ensures
        encode_utf8(c)[encode_utf8(c.take(j)).len() as int] == 10,
        j < c.len() - 1 ==> encode_utf8(c.take(j)).len() < encode_utf8(c).len() - 1,
{
    let a = c.take(j);
    let nl = seq![c[j]];
    let rest = c.skip(j + 1);
    assert(c =~= a + nl + rest);
    lemma_encode_concat(a + nl, rest);
    lemma_encode_concat(a, nl);
    let v = '\n' as u32;
    assert(v == 10);
    assert((10u32 & 0x7f) as u8 == 10u8) by (bit_vector);
    assert(encode_scalar(v) =~= seq![10u8]);
    assert(nl.drop_first() =~= Seq::<char>::empty());
    assert(nl[0] as u32 == v);
    assert(encode_utf8(nl.drop_first()) =~= Seq::<u8>::empty());
    assert(encode_utf8(nl) == encode_scalar(nl[0] as u32) + encode_utf8(nl.drop_first()));
    assert(encode_utf8(nl) =~= seq![10u8]);
    if j < c.len() - 1 {
        lemma_encode_nonempty(rest);
    }
}

/// The text of the line: no newline, no trailing white space.
proof fn lemma_line_text(raw: Seq<u8>)
    requires
        valid_utf8(raw),
        raw.len() > 0,
        raw[raw.len() - 1] == 10,
        forall|i: int| 0 <= i < raw.len() - 1 ==> #[trigger] raw[i] != 10,
    ensures
        forall|i: int|
            0 <= i < trimmed_end(decode_utf8(raw)).len() ==> #[trigger] trimmed_end(
                decode_utf8(raw),
            )[i] != '\n',
        trimmed_end(decode_utf8(raw)).len() == 0 || !is_white_space(
            trimmed_end(decode_utf8(raw)).last(),
        ),
{
    let c = decode_utf8(raw);
    vstd::utf8::decode_utf8_encode_utf8(raw);
    lemma_trimmed_prefix(c);
    let t = trimmed_end(c);
    assert forall|i: int| 0 <= i < t.len() implies #[trigger] t[i] != '\n' by {
        if t[i] == '\n' {
            assert(t[i] == c[i]);
            lemma_newline_byte(c, i);
            if i < c.len() - 1 {
                assert(raw[encode_utf8(c.take(i)).len() as int] == 10);
            } else {
                assert(c.last() == '\n');
                assert(is_white_space(c.last()));
            }
        }
    }
}

/// The header line of a save is the input up to and including its first newline: the
/// bytes put in front of the first entry end with that newline and hold no other, are
/// at least 24 long, match the input everywhere but the seventh byte, and that byte
/// becomes `'0'` or `'1'` with the parity it had. The line kept as text holds no
/// newline and ends in no white space. Games without a header line put nothing in
/// front and keep no line.
pub proof fn law_header_line(data: Seq<u8>, game: Game)
    requires
        zip_prefix_len(data) <= data.len(),
    ensures
        spec_zip_plan(data, game) matches Ok((text, bytes, entries)) ==> {
            &&& !spec_has_header_line(game) ==> text is None && bytes.len() == 0
            &&& spec_has_header_line(game) ==> {
                &&& text is Some
                &&& text matches Some(t) ==> forall|i: int|
                    0 <= i < t.len() ==> #[trigger] t[i] != '\n'
                &&& text matches Some(t) ==> (t.len() == 0 || !is_white_space(t.last()))
                &&& 24 <= bytes.len() <= data.len()
                &&& data[bytes.len() - 1] == 10
                &&& bytes[bytes.len() - 1] == 10
                &&& forall|i: int| 0 <= i < bytes.len() - 1 ==> #[trigger] data[i] != 10
                &&& forall|i: int| 0 <= i < bytes.len() - 1 ==> #[trigger] bytes[i] != 10
                &&& forall|i: int|
                    0 <= i < bytes.len() && i != 6 ==> #[trigger] bytes[i] == data[i]
                &&& bytes[6] == 48 || bytes[6] == 49
                &&& bytes[6] % 2 == data[6] % 2
            }
        },
{
    if spec_has_header_line(game) && spec_zip_plan(data, game) is Ok {
        let pre = data.take(zip_prefix_len(data) as int);
        lemma_first_of(pre, 10u8);
        assert(spec_header_line(data) is Ok);
        let p = crate::write::first_of(pre, 10u8).unwrap();
        let raw = data.take(p + 1);
        let bytes = rewritten_line(raw);
        assert(spec_zip_plan(data, game) matches Ok((_, b, _)) && b == bytes);
        assert(raw.len() >= 24);
        assert(bytes.len() == p + 1);
        assert forall|i: int| 0 <= i <= p implies #[trigger] pre[i] == data[i] by {}
        assert(data[p] == 10);
        assert forall|i: int| 0 <= i < bytes.len() - 1 implies #[trigger] data[i] != 10 by {
            assert(pre[i] == data[i]);
        }
        assert forall|i: int| 0 <= i < bytes.len() - 1 implies #[trigger] bytes[i] != 10 by {
            if i != 6 {
                assert(bytes[i] == raw[i]);
                assert(raw[i] == data[i]);
            }
        }
        assert(bytes[p] == data[p]);
        assert(raw[6] == data[6]);
        assert forall|i: int| 0 <= i < raw.len() - 1 implies #[trigger] raw[i] != 10 by {
            assert(raw[i] == data[i]);
        }
        lemma_line_text(raw);
    }
}

spec fn first_of_line(data: Seq<u8>) -> Option<int> {
    crate::write::first_of(data.take(zip_prefix_len(data) as int), 10u8)
}

/// Every game whose saves carry a header line keeps exactly its gamestate entry; every
/// game that keeps any entry keeps the gamestate; and no game names an entry twice.
pub proof fn law_zip_order(game: Game)
    ensures
        spec_has_header_line(game) ==> spec_zip_order(game) == seq!["gamestate"@],
        spec_zip_order(game).len() > 0 ==> spec_zip_order(game).contains("gamestate"@),
        forall|i: int, j: int|
            0 <= i < j < spec_zip_order(game).len() ==> #[trigger] spec_zip_order(game)[i]
                != #[trigger] spec_zip_order(game)[j],
{
    reveal_strlit("meta");
    reveal_strlit("gamestate");
    reveal_strlit("ai");
    assert("meta"@.len() == 4 && "gamestate"@.len() == 9 && "ai"@.len() == 2);
    if spec_zip_order(game).len() > 0 {
        if game is Eu4 {
            assert(spec_zip_order(game)[1] == "gamestate"@);
        } else {
            assert(spec_zip_order(game)[0] == "gamestate"@);
        }
    }
}

} // verus!
