//! What a PE image with an embedded blob is.

use vstd::prelude::*;
use crate::bytes::{
    align_int, group_field_len, le16, le32, le64, lemma_align_int, lemma_u16_at_le,
    lemma_u16_at_same, lemma_u32_at_le, lemma_u32_at_same, lemma_u64_at_le, overlay, resized,
    u16_at, u32_at, u64_at,
};
use super::descriptor::{aligned_to, patched, EmbedError};
use super::pe::{
    pe_embedded, pe_headers, pe_section_entry, pe_sections, pe_with_section, PeHeaders, PeSections,
    SYMDBH_NAME,
};

verus! {

/// Where the NT headers of an image stand.
pub open spec fn nt_at(data: Seq<u8>) -> int {
    u32_at(data, 60) as int
}

/// How many sections an image has.
pub open spec fn sections_in(data: Seq<u8>) -> int {
    u16_at(data, nt_at(data) + 6) as int
}

/// Where the entry of a section stands in the section table.
pub open spec fn section_at(data: Seq<u8>, i: int) -> int {
    nt_at(data) + 24 + u16_at(data, nt_at(data) + 20) + 40 * i
}

/// Where a section ends in memory.
pub open spec fn section_end(data: Seq<u8>, i: int) -> int {
    u32_at(data, section_at(data, i) + 12) + u32_at(data, section_at(data, i) + 8)
}

/// An alignment of zero counts as one.
pub open spec fn unit(align: u32) -> int {
    if align == 0 {
        1
    } else {
        align as int
    }
}

/// Whether the sections of an image end at `end` in memory: none ends later, and one ends there.
pub open spec fn is_sections_end(data: Seq<u8>, end: int) -> bool {
    &&& forall|i: int| 0 <= i < sections_in(data) ==> #[trigger] section_end(data, i) <= end
    &&& (end == 0 || exists|i: int|
        0 <= i < sections_in(data) && #[trigger] section_end(data, i) == end)
}

/// Whether a section is called `.symdbh`.
pub open spec fn is_descriptor_section(data: Seq<u8>, i: int) -> bool {
    data.subrange(section_at(data, i), section_at(data, i) + 8) == seq![
        0x2eu8, 0x73, 0x79, 0x6d, 0x64, 0x62, 0x68, 0,
    ]
}

/// Whether the section `i` is the last one that is called `.symdbh`.
pub open spec fn is_last_descriptor(data: Seq<u8>, i: int) -> bool {
    &&& 0 <= i < sections_in(data)
    &&& is_descriptor_section(data, i)
    &&& forall|k: int| i < k < sections_in(data) ==> !#[trigger] is_descriptor_section(data, k)
}

/// Whether the headers of an image and its descriptor at `at` do not overlap.
pub open spec fn are_headers_apart(data: Seq<u8>, at: int) -> bool {
    let nt = nt_at(data);
    let table = section_at(data, 0);
    let end = section_at(data, sections_in(data) + 1);
    &&& 64 <= nt
    &&& nt + 136 <= table
    &&& end <= at || 64 <= at && at + 24 <= nt || nt + 136 <= at && at + 24 <= table
}

spec fn nth(off: int, k: int) -> int {
    off + 40 * k
}

spec fn end_at(data: Seq<u8>, at: int) -> int {
    u32_at(data, at + 12) + u32_at(data, at + 8)
}

spec fn is_named_at(data: Seq<u8>, at: int) -> bool {
    data.subrange(at, at + 8) == SYMDBH_NAME@
}

/// What a walk over the section table finds.
proof fn lemma_pe_sections(data: Seq<u8>, off: int, n: int, found: PeSections)
    requires
        0 <= n,
    ensures
        pe_sections(data, off, n, found) matches Ok(out) ==> {
            &&& found.end <= out.end
            &&& forall|k: int| 0 <= k < n ==> end_at(data, #[trigger] nth(off, k)) <= out.end
            &&& (out.end == found.end || exists|k: int|
                0 <= k < n && end_at(data, #[trigger] nth(off, k)) == out.end)
            &&& (forall|k: int| 0 <= k < n ==> !is_named_at(data, #[trigger] nth(off, k)))
                ==> out.descriptor == found.descriptor
            &&& forall|k: int|
                0 <= k < n && is_named_at(data, #[trigger] nth(off, k)) && (forall|j: int|
                    k < j < n ==> !is_named_at(data, #[trigger] nth(off, j))) ==> out.descriptor
                    == Some(u32_at(data, nth(off, k) + 20))
        },
    decreases n,
{
    if n > 0 {
        let name = data.subrange(off, off + 8);
        let end = u32_at(data, off + 12) + u32_at(data, off + 8);
        let reached = if end > found.end {
            end as u64
        } else {
            found.end
        };
        let next = if name == SYMDBH_NAME@ {
            PeSections { descriptor: Some(u32_at(data, off + 20)), end: reached }
        } else {
            PeSections { end: reached, ..found }
        };
        lemma_pe_sections(data, off + 40, n - 1, next);
        assert(nth(off, 0) == off);
        assert forall|k: int| 0 <= k < n - 1 implies #[trigger] nth(off + 40, k) == nth(
            off,
            k + 1,
        ) by {}
        if let Ok(out) = pe_sections(data, off, n, found) {
            assert(pe_sections(data, off + 40, n - 1, next) == Ok::<PeSections, EmbedError>(out));
            assert forall|k: int| 0 <= k < n implies end_at(data, #[trigger] nth(off, k))
                <= out.end by {
                if k > 0 {
                    assert(nth(off + 40, k - 1) == nth(off, k));
                }
            }
            if out.end != found.end {
                if out.end == next.end {
                    assert(end_at(data, nth(off, 0)) == out.end);
                } else {
                    let k = choose|k: int|
                        0 <= k < n - 1 && end_at(data, #[trigger] nth(off + 40, k)) == out.end;
                    assert(end_at(data, nth(off, k + 1)) == out.end);
                }
            }
            assert((forall|k: int| 0 <= k < n ==> !is_named_at(data, #[trigger] nth(off, k)))
                ==> out.descriptor == found.descriptor) by {
                if forall|k: int| 0 <= k < n ==> !is_named_at(data, #[trigger] nth(off, k)) {
                    assert(!is_named_at(data, nth(off, 0)));
                    assert forall|k: int| 0 <= k < n - 1 implies !is_named_at(
                        data,
                        #[trigger] nth(off + 40, k),
                    ) by {
                        assert(!is_named_at(data, nth(off, k + 1)));
                    }
                }
            }
            assert forall|k: int|
                0 <= k < n && is_named_at(data, #[trigger] nth(off, k)) && (forall|j: int|
                    k < j < n ==> !is_named_at(
                        data,
                        #[trigger] nth(off, j),
                    )) implies out.descriptor == Some(u32_at(data, nth(off, k) + 20)) by {
                assert forall|j: int| k - 1 < j < n - 1 implies !is_named_at(
                    data,
                    #[trigger] nth(off + 40, j),
                ) by {
                    assert(!is_named_at(data, nth(off, j + 1)));
                }
                if k > 0 {
                    assert(is_named_at(data, nth(off + 40, k - 1)));
                }
            }
        }
    }
}

/// The bytes of an image before the blob is appended to it.
proof fn lemma_edited(d1: Seq<u8>, nt: int, entry: int, new_entry: Seq<u8>, count: u16, size: u32)
    requires
        0 <= nt,
        nt + 136 <= entry,
        entry + 40 <= d1.len(),
        new_entry.len() == 40,
    ensures
        ({
            let out = overlay(
                overlay(
                    overlay(overlay(d1, entry, new_entry), nt + 6, le16(count)),
                    nt + 80,
                    le32(size),
                ),
                nt + 88,
                le32(0),
            );
            &&& out.len() == d1.len()
            &&& out.subrange(nt + 6, nt + 8) == le16(count)
            &&& out.subrange(nt + 80, nt + 84) == le32(size)
            &&& out.subrange(nt + 88, nt + 92) == le32(0)
            &&& out.subrange(entry, entry + 40) == new_entry
            &&& forall|i: int|
                0 <= i < d1.len() && !(nt + 6 <= i < nt + 8) && !(nt + 80 <= i < nt + 84) && !(nt
                    + 88 <= i < nt + 92) && !(entry <= i < entry + 40) ==> #[trigger] out[i] == d1[i]
        }),
{
    broadcast use group_field_len;

    let out = overlay(
        overlay(
            overlay(overlay(d1, entry, new_entry), nt + 6, le16(count)),
            nt + 80,
            le32(size),
        ),
        nt + 88,
        le32(0),
    );
    assert(out.subrange(nt + 6, nt + 8) =~= le16(count));
    assert(out.subrange(nt + 80, nt + 84) =~= le32(size));
    assert(out.subrange(nt + 88, nt + 92) =~= le32(0));
    assert(out.subrange(entry, entry + 40) =~= new_entry);
}

/// What an embedding writes: the section table and the header fields, the descriptor, and the blob
/// behind everything.
proof fn lemma_pe_written(
    data: Seq<u8>,
    blob: Seq<u8>,
    headers: PeHeaders,
    sections: PeSections,
)
    requires
        data.len() <= usize::MAX,
        pe_with_section(data, blob, headers, sections) is Ok,
        sections.descriptor matches Some(d) && (headers.table + 40 * headers.section_count + 40 <= d
            || 64 <= d && d + 24 <= headers.nt || headers.nt + 136 <= d && d + 24
            <= headers.table),
        headers.nt + 136 <= headers.table,
    ensures
        ({
            let out = pe_with_section(data, blob, headers, sections)->Ok_0;
            let nt = headers.nt as int;
            let entry = headers.table + 40 * headers.section_count;
            let d = sections.descriptor->Some_0 as int;
            let va = aligned_to(sections.end as int, headers.section_align as int);
            let raw = aligned_to(data.len() as int, headers.file_align as int);
            let raw_size = aligned_to(blob.len() as int, headers.file_align as int);
            let image_end = aligned_to(va + blob.len(), headers.section_align as int);
            &&& entry + 40 <= data.len() <= raw
            &&& d + 24 <= data.len()
            &&& blob.len() <= raw_size
            &&& out.len() == raw + raw_size
            &&& out.subrange(nt + 6, nt + 8) == le16((headers.section_count + 1) as u16)
            &&& out.subrange(nt + 80, nt + 84) == le32((image_end as u64) as u32)
            &&& out.subrange(nt + 88, nt + 92) == le32(0)
            &&& out.subrange(entry, entry + 40) == pe_section_entry(
                blob.len() as int,
                va as u64,
                raw_size as u64,
                raw as u64,
            )
            &&& out.subrange(d + 8, d + 16) == le64(va as u64)
            &&& out.subrange(d + 16, d + 24) == le64(blob.len() as u64)
            &&& out.subrange(raw, raw + blob.len()) == blob
            &&& forall|i: int|
                0 <= i < data.len() && !(nt + 6 <= i < nt + 8) && !(nt + 80 <= i < nt + 84) && !(nt
                    + 88 <= i < nt + 92) && !(entry <= i < entry + 40) && !(d + 8 <= i < d + 24)
                    ==> #[trigger] out[i] == data[i]
            &&& forall|i: int|
                data.len() <= i < raw || raw + blob.len() <= i < out.len() ==> #[trigger] out[i] == 0
        }),
{
    broadcast use group_field_len;

    let out = pe_with_section(data, blob, headers, sections)->Ok_0;
    let nt = headers.nt as int;
    let entry = headers.table + 40 * headers.section_count;
    let d = sections.descriptor->Some_0 as int;
    let va = aligned_to(sections.end as int, headers.section_align as int);
    let raw = aligned_to(data.len() as int, headers.file_align as int);
    let raw_size = aligned_to(blob.len() as int, headers.file_align as int);
    let image_end = aligned_to(va + blob.len(), headers.section_align as int);
    let align = unit(headers.file_align);
    lemma_align_int(data.len() as int, align);
    lemma_align_int(blob.len() as int, align);
    let new_entry = pe_section_entry(blob.len() as int, va as u64, raw_size as u64, raw as u64);
    assert(new_entry.len() == 40);
    let d1 = patched(data, d, va as u64, blob.len() as u64)->Ok_0;
    let count = (headers.section_count + 1) as u16;
    let size = (image_end as u64) as u32;
    lemma_edited(d1, nt, entry, new_entry, count, size);
    let d5 = overlay(
        overlay(
            overlay(overlay(d1, entry, new_entry), nt + 6, le16(count)),
            nt + 80,
            le32(size),
        ),
        nt + 88,
        le32(0),
    );
    assert(out == resized(resized(d5, raw) + blob, raw + raw_size));
    assert forall|i: int| 0 <= i < data.len() implies #[trigger] out[i] == d5[i] by {}
    assert(out.subrange(raw, raw + blob.len()) =~= blob);
    assert(out.subrange(nt + 6, nt + 8) =~= d5.subrange(nt + 6, nt + 8));
    assert(out.subrange(nt + 80, nt + 84) =~= d5.subrange(nt + 80, nt + 84));
    assert(out.subrange(nt + 88, nt + 92) =~= d5.subrange(nt + 88, nt + 92));
    assert(out.subrange(entry, entry + 40) =~= d5.subrange(entry, entry + 40));
    assert(d1 == overlay(overlay(data, d + 8, le64(va as u64)), d + 16, le64(blob.len() as u64)));
    assert(out.subrange(d + 8, d + 16) =~= le64(va as u64));
    assert(out.subrange(d + 16, d + 24) =~= le64(blob.len() as u64));
    assert forall|i: int|
        0 <= i < data.len() && !(nt + 6 <= i < nt + 8) && !(nt + 80 <= i < nt + 84) && !(nt + 88
            <= i < nt + 92) && !(entry <= i < entry + 40) && !(d + 8 <= i < d
            + 24) implies #[trigger] out[i] == data[i] by {
        assert(d5[i] == d1[i]);
    }
}

/// What the entry of the new section holds.
proof fn lemma_pe_entry(out: Seq<u8>, at: int, len: int, va: u64, raw_size: u64, raw: u64)
    requires
        0 <= at,
        at + 40 <= out.len(),
        out.subrange(at, at + 40) == pe_section_entry(len, va, raw_size, raw),
    ensures
        out.subrange(at, at + 8) == seq![0x2eu8, 0x73, 0x79, 0x6d, 0x64, 0x62, 0, 0],
        u32_at(out, at + 8) == len as u32,
        u32_at(out, at + 12) == va as u32,
        u32_at(out, at + 16) == raw_size as u32,
        u32_at(out, at + 20) == raw as u32,
        u32_at(out, at + 24) == 0,
        u32_at(out, at + 28) == 0,
        u16_at(out, at + 32) == 0,
        u16_at(out, at + 34) == 0,
        u32_at(out, at + 36) == 0x4000_0040,
{
    broadcast use group_field_len;

    let e = pe_section_entry(len, va, raw_size, raw);
    assert forall|i: int| 0 <= i < 40 implies #[trigger] out[at + i] == e[i] by {
        assert(out.subrange(at, at + 40)[i] == e[i]);
    }
    assert(out.subrange(at, at + 8) =~= seq![0x2eu8, 0x73, 0x79, 0x6d, 0x64, 0x62, 0, 0]) by {
        assert forall|i: int| 0 <= i < 8 implies out.subrange(at, at + 8)[i] == seq![
            0x2eu8,
            0x73,
            0x79,
            0x6d,
            0x64,
            0x62,
            0,
            0,
        ][i] by {
            assert(out[at + i] == e[i]);
        }
    }
    lemma_entry_u32(out, at, e, 8, len as u32);
    lemma_entry_u32(out, at, e, 12, va as u32);
    lemma_entry_u32(out, at, e, 16, raw_size as u32);
    lemma_entry_u32(out, at, e, 20, raw as u32);
    lemma_entry_u32(out, at, e, 24, 0);
    lemma_entry_u32(out, at, e, 28, 0);
    lemma_entry_u32(out, at, e, 36, 0x4000_0040);
    assert(e.subrange(32, 34) =~= le16(0));
    assert(e.subrange(34, 36) =~= le16(0));
    lemma_part(out, at, e, 32, 34);
    lemma_part(out, at, e, 34, 36);
    lemma_u16_at_le(out, at + 32, 0);
    lemma_u16_at_le(out, at + 34, 0);
}

proof fn lemma_part(out: Seq<u8>, at: int, e: Seq<u8>, lo: int, hi: int)
    requires
        0 <= at,
        at + e.len() <= out.len(),
        0 <= lo <= hi <= e.len(),
        forall|i: int| 0 <= i < e.len() ==> #[trigger] out[at + i] == e[i],
    ensures
        out.subrange(at + lo, at + hi) == e.subrange(lo, hi),
{
    let (p, q) = (out.subrange(at + lo, at + hi), e.subrange(lo, hi));
    assert forall|i: int| 0 <= i < hi - lo implies p[i] == q[i] by {
        assert(out[at + (lo + i)] == e[lo + i]);
    }
    assert(p =~= q);
}

proof fn lemma_entry_u32(out: Seq<u8>, at: int, e: Seq<u8>, field: int, v: u32)
    requires
        0 <= at,
        at + e.len() <= out.len(),
        0 <= field,
        field + 4 <= e.len(),
        forall|i: int| 0 <= i < e.len() ==> #[trigger] out[at + i] == e[i],
        e.subrange(field, field + 4) =~= le32(v),
    ensures
        u32_at(out, at + field) == v,
{
    lemma_part(out, at, e, field, field + 4);
    lemma_u32_at_le(out, at + field, v);
}

/// An image with an embedded blob has one more section than before, with the blob in it: the section
/// is read-only data, stands behind the others in memory and in the file and is aligned as they are.
/// The size of the image covers it and is aligned. The descriptor holds where it is loaded and how
/// long it is. The entries of the other sections, and everything else, stay as they are.
///
/// An image without room in its header block is left out: there the block grows first. Left out too
/// are headers that overlap one another or the descriptor, and sizes that need more than 32 bits.
pub proof fn law_pe_blob_is_a_section_of_the_image(
    data: Seq<u8>,
    blob: Seq<u8>,
    end: int,
    i: int,
)
    requires
        data.len() <= usize::MAX,
        pe_embedded(data, blob) is Ok,
        section_at(data, sections_in(data) + 1) <= u32_at(data, nt_at(data) + 84),
        sections_in(data) < 0xffff,
        is_sections_end(data, end),
        is_last_descriptor(data, i),
        are_headers_apart(data, u32_at(data, section_at(data, i) + 20) as int),
        ({
            let align = unit(u32_at(data, nt_at(data) + 56));
            let file_align = unit(u32_at(data, nt_at(data) + 60));
            &&& align_int(align_int(end, align) + blob.len(), align) <= u32::MAX
            &&& align_int(data.len() as int, file_align) <= u32::MAX
            &&& align_int(blob.len() as int, file_align) <= u32::MAX
        }),
    ensures
        ({
            let out = pe_embedded(data, blob)->Ok_0;
            let nt = nt_at(data);
            let n = sections_in(data);
            let align = unit(u32_at(data, nt + 56));
            let file_align = unit(u32_at(data, nt + 60));
            let entry = section_at(data, n);
            let at = u32_at(data, section_at(data, i) + 20) as int;
            let rva = u32_at(out, entry + 12);
            let raw = u32_at(out, entry + 20);
            let raw_size = u32_at(out, entry + 16);
            let image_size = u32_at(out, nt + 80);
            // The headers are still those of the image, with one more section.
            &&& nt_at(out) == nt
            &&& sections_in(out) == n + 1
            &&& section_at(out, 0) == section_at(data, 0)
            &&& out.subrange(section_at(data, 0), entry) == data.subrange(
                section_at(data, 0),
                entry,
            )
            &&& u32_at(out, nt + 88) == 0
            // The new section.
            &&& out.subrange(entry, entry + 8) == seq![0x2eu8, 0x73, 0x79, 0x6d, 0x64, 0x62, 0, 0]
            &&& u32_at(out, entry + 8) == blob.len()
            &&& u32_at(out, entry + 36) == 0x4000_0040
            &&& u32_at(out, entry + 24) == 0 && u32_at(out, entry + 28) == 0
            &&& u16_at(out, entry + 32) == 0 && u16_at(out, entry + 34) == 0
            // Where it is in memory.
            &&& rva as int % align == 0
            &&& end <= rva < end + align
            &&& image_size as int % align == 0
            &&& rva + blob.len() <= image_size < rva + blob.len() + align
            &&& forall|k: int| 0 <= k < n + 1 ==> #[trigger] section_end(out, k) <= image_size
            // Where it is in the file.
            &&& raw as int % file_align == 0
            &&& raw_size as int % file_align == 0
            &&& data.len() <= raw < data.len() + file_align
            &&& blob.len() <= raw_size < blob.len() + file_align
            &&& out.len() == raw + raw_size
            &&& out.subrange(raw as int, raw + blob.len()) == blob
            // The descriptor.
            &&& u64_at(out, at + 8) == rva
            &&& u64_at(out, at + 16) == blob.len()
            // Everything else.
            &&& forall|k: int|
                0 <= k < data.len() && !(nt + 6 <= k < nt + 8) && !(nt + 80 <= k < nt + 84) && !(nt
                    + 88 <= k < nt + 92) && !(entry <= k < entry + 40) && !(at + 8 <= k < at + 24)
                    ==> #[trigger] out[k] == data[k]
        }),
{
    broadcast use group_field_len;

    let out = pe_embedded(data, blob)->Ok_0;
    let headers = pe_headers(data)->Ok_0;
    let start = PeSections { descriptor: None, end: 0 };
    let sections = pe_sections(
        data,
        headers.table as int,
        headers.section_count as int,
        start,
    )->Ok_0;
    let nt = nt_at(data);
    let n = sections_in(data);
    let align = unit(u32_at(data, nt + 56));
    let file_align = unit(u32_at(data, nt + 60));
    let entry = section_at(data, n);
    let at = u32_at(data, section_at(data, i) + 20) as int;
    lemma_pe_sections(data, headers.table as int, n, start);
    assert forall|k: int| #[trigger] nth(headers.table as int, k) == section_at(data, k) by {}
    assert(SYMDBH_NAME@ =~= seq![0x2eu8, 0x73, 0x79, 0x6d, 0x64, 0x62, 0x68, 0]);
    assert(sections.descriptor == Some(at as u32)) by {
        assert(is_named_at(data, nth(headers.table as int, i)));
        assert forall|j: int| i < j < n implies !is_named_at(
            data,
            #[trigger] nth(headers.table as int, j),
        ) by {
            assert(!is_descriptor_section(data, j));
        }
    }
    assert(sections.end == end) by {
        assert forall|k: int| 0 <= k < n implies end_at(
            data,
            #[trigger] nth(headers.table as int, k),
        ) == section_end(data, k) by {}
        if end != 0 {
            let k = choose|k: int|
                0 <= k < sections_in(data) && #[trigger] section_end(data, k) == end;
            assert(end_at(data, nth(headers.table as int, k)) == end);
        }
        if sections.end != 0 {
            let k = choose|k: int|
                0 <= k < n && end_at(data, #[trigger] nth(headers.table as int, k))
                    == sections.end;
            assert(section_end(data, k) == sections.end);
        }
    }
    lemma_pe_written(data, blob, headers, sections);
    lemma_align_int(end, align);
    let rva = align_int(end, align);
    lemma_align_int(rva + blob.len(), align);
    let image_end = align_int(rva + blob.len(), align);
    let raw = align_int(data.len() as int, file_align);
    let raw_size = align_int(blob.len() as int, file_align);
    lemma_align_int(data.len() as int, file_align);
    lemma_align_int(blob.len() as int, file_align);
    lemma_pe_entry(out, entry, blob.len() as int, rva as u64, raw_size as u64, raw as u64);
    lemma_u16_at_le(out, nt + 6, (n + 1) as u16);
    lemma_u32_at_le(out, nt + 80, image_end as u32);
    lemma_u32_at_le(out, nt + 88, 0);
    lemma_u64_at_le(out, at + 8, rva as u64);
    lemma_u64_at_le(out, at + 16, blob.len() as u64);
    assert(out.subrange(60, 64) =~= data.subrange(60, 64));
    lemma_u32_at_same(out, 60, data, 60);
    assert(out.subrange(nt + 20, nt + 22) =~= data.subrange(nt + 20, nt + 22));
    lemma_u16_at_same(out, nt + 20, data, nt + 20);
    assert(out.subrange(section_at(data, 0), entry) =~= data.subrange(section_at(data, 0), entry));
    assert forall|k: int| 0 <= k < n + 1 implies #[trigger] section_end(out, k) <= image_end by {
        let x = section_at(data, k);
        assert(section_at(out, k) == x);
        if k < n {
            assert(x + 40 <= entry);
            assert(out.subrange(x + 12, x + 16) =~= data.subrange(x + 12, x + 16));
            assert(out.subrange(x + 8, x + 12) =~= data.subrange(x + 8, x + 12));
            lemma_u32_at_same(out, x + 12, data, x + 12);
            lemma_u32_at_same(out, x + 8, data, x + 8);
            assert(section_end(data, k) <= end);
        }
    }
}

} // verus!
