//! What growing the header block of a PE image changes.

use vstd::prelude::*;
use crate::bytes::{
    group_field_len, le32, lemma_align_int, lemma_u32_at_le, lemma_u32_at_same, overlay, u32_at,
    zeros,
};
use super::pe::{
    pe_grown, pe_headers, pe_sections, rva_to_file, shifted_debug, shifted_pointers, PeHeaders,
    PeSections, SYMDBH_NAME, SYMDB_NAME,
};

verus! {

/// Where the field of a record stands.
pub open spec fn field_at(base: int, stride: int, field: int, k: int) -> int {
    base + stride * k + field
}

/// Whether a byte is one of the field of a record.
pub open spec fn is_in_field(base: int, stride: int, field: int, n: int, i: int) -> bool {
    exists|k: int|
        0 <= k < n && #[trigger] field_at(base, stride, field, k) <= i < field_at(
            base,
            stride,
            field,
            k,
        ) + 4
}

/// Whether a file offset moved along: by `grow`, and not at all where it is zero.
pub open spec fn is_moved(before: u32, after: u32, grow: int) -> bool {
    after == if before == 0 {
        0
    } else {
        before + grow
    }
}

proof fn lemma_steps(base: int, stride: int, field: int, k: int)
    ensures
        field_at(base + stride, stride, field, k - 1) == field_at(base, stride, field, k),
        field_at(base, stride, field, 0) == base + field,
{
    assert(stride + stride * (k - 1) == stride * k) by (nonlinear_arith);
    assert(stride * 0 == 0) by (nonlinear_arith);
}

proof fn lemma_behind(base: int, stride: int, field: int, k: int)
    requires
        0 < k,
        0 < stride,
    ensures
        field_at(base, stride, field, k) >= base + stride + field,
{
    assert(stride * k >= stride) by (nonlinear_arith)
        requires
            0 < k,
            0 < stride,
    ;
}

proof fn lemma_within(stride: int, k: int, n: int)
    requires
        0 <= k < n,
        0 < stride,
    ensures
        0 <= stride * k,
        stride * k + stride <= stride * n,
{
    assert(0 <= stride * k && stride * k + stride <= stride * n) by (nonlinear_arith)
        requires
            0 <= k < n,
            0 < stride,
    ;
}

proof fn lemma_shifted(data: Seq<u8>, base: int, stride: int, field: int, n: int, grow: int)
    requires
        0 <= base,
        0 <= field,
        field + 4 <= stride,
        0 <= n,
        base + stride * n <= data.len(),
        shifted_pointers(data, base, stride, field, n, grow) is Ok,
        0 <= grow,
    ensures
        ({
            let out = shifted_pointers(data, base, stride, field, n, grow)->Ok_0;
            &&& out.len() == data.len()
            &&& forall|i: int|
                0 <= i < data.len() && !is_in_field(base, stride, field, n, i) ==> out[i] == data[i]
            &&& forall|k: int|
                0 <= k < n ==> is_moved(
                    u32_at(data, #[trigger] field_at(base, stride, field, k)),
                    u32_at(out, field_at(base, stride, field, k)),
                    grow,
                )
        }),
    decreases n,
{
    broadcast use group_field_len;

    if n > 0 {
        let at = base + field;
        let pointer = u32_at(data, at);
        lemma_within(stride, 0, n);
        assert(stride + stride * (n - 1) == stride * n) by (nonlinear_arith);
        let next = if pointer == 0 {
            data
        } else {
            overlay(data, at, le32((pointer + grow) as u32))
        };
        let out = shifted_pointers(data, base, stride, field, n, grow)->Ok_0;
        assert(out == shifted_pointers(next, base + stride, stride, field, n - 1, grow)->Ok_0);
        lemma_shifted(next, base + stride, stride, field, n - 1, grow);
        lemma_steps(base, stride, field, 0);
        assert forall|i: int|
            0 <= i < data.len() && !is_in_field(base, stride, field, n, i) implies out[i]
            == data[i] by {
            if is_in_field(base + stride, stride, field, n - 1, i) {
                let k = choose|k: int|
                    0 <= k < n - 1 && #[trigger] field_at(base + stride, stride, field, k) <= i
                        < field_at(base + stride, stride, field, k) + 4;
                lemma_steps(base, stride, field, k + 1);
                assert(field_at(base, stride, field, k + 1) <= i < field_at(
                    base,
                    stride,
                    field,
                    k + 1,
                ) + 4);
                assert(false);
            }
            assert(!(field_at(base, stride, field, 0) <= i < field_at(base, stride, field, 0) + 4));
        }
        assert forall|i: int| at <= i < at + 4 implies out[i] == next[i] by {
            if is_in_field(base + stride, stride, field, n - 1, i) {
                let k = choose|k: int|
                    0 <= k < n - 1 && #[trigger] field_at(base + stride, stride, field, k) <= i
                        < field_at(base + stride, stride, field, k) + 4;
                lemma_steps(base, stride, field, k + 1);
                lemma_behind(base, stride, field, k + 1);
                assert(false);
            }
        }
        assert(out.subrange(at, at + 4) =~= next.subrange(at, at + 4));
        lemma_u32_at_same(out, at, next, at);
        if pointer != 0 {
            assert(next.subrange(at, at + 4) =~= le32((pointer + grow) as u32));
            lemma_u32_at_le(next, at, (pointer + grow) as u32);
        }
        assert forall|k: int| 0 <= k < n implies is_moved(
            u32_at(data, #[trigger] field_at(base, stride, field, k)),
            u32_at(out, field_at(base, stride, field, k)),
            grow,
        ) by {
            if k > 0 {
                let f = field_at(base, stride, field, k);
                lemma_steps(base, stride, field, k);
                lemma_behind(base, stride, field, k);
                lemma_within(stride, k, n);
                assert(f == field_at(base + stride, stride, field, k - 1));
                assert(next.subrange(f, f + 4) =~= data.subrange(f, f + 4));
                lemma_u32_at_same(next, f, data, f);
            }
        }
    }
}

/// The file offset of an address depends on the section table alone.
proof fn lemma_same_file_offset(a: Seq<u8>, b: Seq<u8>, off: int, n: int, rva: int)
    requires
        0 <= off,
        0 <= n,
        off + 40 * n <= a.len(),
        a.len() == b.len(),
        forall|i: int| off <= i < off + 40 * n ==> a[i] == b[i],
    ensures
        rva_to_file(a, off, n, rva) == rva_to_file(b, off, n, rva),
    decreases n,
{
    if n > 0 {
        assert(a.subrange(off + 12, off + 16) =~= b.subrange(off + 12, off + 16));
        lemma_u32_at_same(a, off + 12, b, off + 12);
        assert(a.subrange(off + 16, off + 20) =~= b.subrange(off + 16, off + 20));
        lemma_u32_at_same(a, off + 16, b, off + 16);
        assert(a.subrange(off + 20, off + 24) =~= b.subrange(off + 20, off + 24));
        lemma_u32_at_same(a, off + 20, b, off + 20);
        lemma_same_file_offset(a, b, off + 40, n - 1, rva);
    }
}

/// Where the debug directory of an image stands and how many entries it has; none without one.
pub open spec fn debug_entries(data: Seq<u8>, headers: PeHeaders) -> (int, int) {
    let directory = headers.nt + 184;
    let size = u32_at(data, directory + 4) as int;
    if headers.directory_count <= 6 || size == 0 {
        (0, 0)
    } else {
        match rva_to_file(
            data,
            headers.table as int,
            headers.section_count as int,
            u32_at(data, directory) as int,
        ) {
            Some(at) => (at, size / 28),
            None => (0, 0),
        }
    }
}

/// Whether the section table lies in the header block, behind the other headers, and the debug
/// directory behind the block.
pub open spec fn is_orderly(data: Seq<u8>, headers: PeHeaders) -> bool {
    let old_size = u32_at(data, headers.nt + 84) as int;
    let (debug, count) = debug_entries(data, headers);
    &&& headers.nt + 136 + 8 * headers.directory_count <= headers.table
    &&& headers.table + 40 * headers.section_count <= old_size <= data.len()
    &&& count > 0 ==> old_size <= debug && debug + 28 * count <= data.len()
}

/// Whether a byte of the headers is one that growing changes: the size of the headers, where the symbol
/// table is, or where the contents of a section are.
pub open spec fn is_edited(headers: PeHeaders, i: int) -> bool {
    ||| headers.nt + 84 <= i < headers.nt + 88
    ||| headers.nt + 12 <= i < headers.nt + 16
    ||| is_in_field(headers.table as int, 40, 20, headers.section_count as int, i)
}

/// The steps of growing, on the image before it is taken apart.
proof fn lemma_grown(data: Seq<u8>, headers: PeHeaders, needed: int) -> (out: Seq<u8>)
    requires
        pe_headers(data) matches Ok(found) && found == headers,
        pe_grown(data, headers, needed) is Ok,
        is_orderly(data, headers),
        u32_at(data, headers.nt + 84) < needed,
    ensures
        ({
            let old_size = headers.size_of_headers as int;
            let g = pe_grown(data, headers, needed)->Ok_0;
            let grow = g.len() - data.len();
            let (debug, count) = debug_entries(data, headers);
            let align = if headers.file_align == 0 {
                1
            } else {
                headers.file_align as int
            };
            &&& out.len() == data.len()
            &&& needed <= old_size + grow
            &&& 0 < grow < needed - old_size + align
            &&& grow % align == 0
            &&& g == out.subrange(0, old_size) + zeros(grow) + out.subrange(
                old_size,
                data.len() as int,
            )
            &&& u32_at(out, headers.nt + 84) == old_size + grow
            &&& is_moved(u32_at(data, headers.nt + 12), u32_at(out, headers.nt + 12), grow)
            &&& forall|k: int|
                0 <= k < headers.section_count ==> is_moved(
                    u32_at(data, #[trigger] field_at(headers.table as int, 40, 20, k)),
                    u32_at(out, field_at(headers.table as int, 40, 20, k)),
                    grow,
                )
            &&& forall|k: int|
                0 <= k < count ==> is_moved(
                    u32_at(data, #[trigger] field_at(debug, 28, 24, k)),
                    u32_at(out, field_at(debug, 28, 24, k)),
                    grow,
                )
            &&& forall|i: int|
                0 <= i < data.len() && !is_edited(headers, i) && !is_in_field(
                    debug,
                    28,
                    24,
                    count,
                    i,
                ) ==> out[i] == data[i]
        }),
{
    broadcast use group_field_len;

    let old_size = headers.size_of_headers as int;
    let table = headers.table as int;
    let n = headers.section_count as int;
    let nt = headers.nt as int;
    let align = if headers.file_align == 0 {
        1
    } else {
        headers.file_align as int
    };
    lemma_align_int(needed - old_size, align);
    let g = pe_grown(data, headers, needed)->Ok_0;
    let grow = super::descriptor::aligned_to(needed - old_size, headers.file_align as int);
    let symtab = u32_at(data, nt + 12);
    let d1 = overlay(data, nt + 84, le32((old_size + grow) as u32));
    let d2 = if symtab != 0 {
        overlay(d1, nt + 12, le32((symtab + grow) as u32))
    } else {
        d1
    };
    let d3 = shifted_debug(d2, headers, grow)->Ok_0;
    let d4 = shifted_pointers(d3, table, 40, 20, n, grow)->Ok_0;
    let directory = nt + 184;
    let (debug, count) = debug_entries(data, headers);
    assert(d2.len() == data.len());
    if headers.directory_count > 6 {
        assert(d2.subrange(directory, directory + 4) =~= data.subrange(directory, directory + 4));
        lemma_u32_at_same(d2, directory, data, directory);
        assert(d2.subrange(directory + 4, directory + 8) =~= data.subrange(
            directory + 4,
            directory + 8,
        ));
        lemma_u32_at_same(d2, directory + 4, data, directory + 4);
        lemma_same_file_offset(d2, data, table, n, u32_at(data, directory) as int);
    }
    if count > 0 {
        assert(28 * count <= data.len());
        lemma_shifted(d2, debug, 28, 24, count, grow);
    }
    assert(d3.len() == data.len());
    assert forall|i: int|
        0 <= i < data.len() && !is_in_field(debug, 28, 24, count, i) implies d3[i] == d2[i] by {}
    lemma_shifted(d3, table, 40, 20, n, grow);
    assert(d4.len() == data.len());
    assert forall|i: int| 0 <= i < old_size implies !is_in_field(debug, 28, 24, count, i) by {
        if is_in_field(debug, 28, 24, count, i) {
            let k = choose|k: int|
                0 <= k < count && #[trigger] field_at(debug, 28, 24, k) <= i < field_at(
                    debug,
                    28,
                    24,
                    k,
                ) + 4;
            assert(false);
        }
    }
    assert forall|i: int| 0 <= i < table || table + 40 * n <= i < data.len() implies !is_in_field(
        table,
        40,
        20,
        n,
        i,
    ) by {
        if is_in_field(table, 40, 20, n, i) {
            let k = choose|k: int|
                0 <= k < n && #[trigger] field_at(table, 40, 20, k) <= i < field_at(
                    table,
                    40,
                    20,
                    k,
                ) + 4;
            assert(false);
        }
    }
    assert(d4.subrange(nt + 84, nt + 88) =~= le32((old_size + grow) as u32));
    lemma_u32_at_le(d4, nt + 84, (old_size + grow) as u32);
    if symtab != 0 {
        assert(d4.subrange(nt + 12, nt + 16) =~= le32((symtab + grow) as u32));
        lemma_u32_at_le(d4, nt + 12, (symtab + grow) as u32);
    } else {
        assert(d4.subrange(nt + 12, nt + 16) =~= data.subrange(nt + 12, nt + 16));
        lemma_u32_at_same(d4, nt + 12, data, nt + 12);
    }
    assert forall|k: int| 0 <= k < n implies is_moved(
        u32_at(data, #[trigger] field_at(table, 40, 20, k)),
        u32_at(d4, field_at(table, 40, 20, k)),
        grow,
    ) by {
        let f = field_at(table, 40, 20, k);
        assert(d3.subrange(f, f + 4) =~= data.subrange(f, f + 4));
        lemma_u32_at_same(d3, f, data, f);
    }
    assert forall|k: int| 0 <= k < count implies is_moved(
        u32_at(data, #[trigger] field_at(debug, 28, 24, k)),
        u32_at(d4, field_at(debug, 28, 24, k)),
        grow,
    ) by {
        let f = field_at(debug, 28, 24, k);
        assert(d4.subrange(f, f + 4) =~= d3.subrange(f, f + 4));
        lemma_u32_at_same(d4, f, d3, f);
        assert(d2.subrange(f, f + 4) =~= data.subrange(f, f + 4));
        lemma_u32_at_same(d2, f, data, f);
    }
    d4
}

/// Growing the header block makes it reach what is needed, by a multiple of the file alignment. The new
/// bytes are zero, and what stood behind the block moved by them. Every file offset moved along: that
/// of the symbol table, that of each section and that of each entry of the debug directory. Nothing
/// else changed.
pub proof fn law_growing_moves_every_file_offset(
    data: Seq<u8>,
    headers: PeHeaders,
    needed: int,
    i: int,
)
    requires
        pe_headers(data) matches Ok(found) && found == headers,
        pe_grown(data, headers, needed) is Ok,
        is_orderly(data, headers),
        u32_at(data, headers.nt + 84) < needed,
    ensures
        ({
            let g = pe_grown(data, headers, needed)->Ok_0;
            let grow = g.len() - data.len();
            let old_size = u32_at(data, headers.nt + 84) as int;
            let file_align = u32_at(data, headers.nt + 60) as int;
            let section = headers.table + 40 * i + 20;
            let (debug, count) = debug_entries(data, headers);
            let entry = debug + 28 * i + 24;
            &&& u32_at(g, headers.nt + 84) == old_size + grow
            &&& needed <= old_size + grow
            &&& file_align > 0 ==> grow % file_align == 0 && grow < needed - old_size + file_align
            &&& is_moved(u32_at(data, headers.nt + 12), u32_at(g, headers.nt + 12), grow)
            &&& 0 <= i < headers.section_count ==> is_moved(
                u32_at(data, section),
                u32_at(g, section),
                grow,
            )
            &&& 0 <= i < count ==> is_moved(u32_at(data, entry), u32_at(g, entry + grow), grow)
            &&& old_size <= i < old_size + grow ==> g[i] == 0
            &&& 0 <= i < old_size && !is_edited(headers, i) ==> g[i] == data[i]
            &&& old_size <= i < data.len() && !is_in_field(debug, 28, 24, count, i) ==> g[i + grow]
                == data[i]
        }),
{
    let g = pe_grown(data, headers, needed)->Ok_0;
    let grow = g.len() - data.len();
    let old_size = u32_at(data, headers.nt + 84) as int;
    let out = lemma_grown(data, headers, needed);
    let (debug, count) = debug_entries(data, headers);
    let nt = headers.nt as int;
    let table = headers.table as int;
    let n = headers.section_count as int;
    assert(old_size == headers.size_of_headers);
    assert(forall|j: int| 0 <= j < old_size ==> #[trigger] g[j] == out[j]);
    assert(g.subrange(nt + 84, nt + 88) =~= out.subrange(nt + 84, nt + 88));
    lemma_u32_at_same(g, nt + 84, out, nt + 84);
    assert(g.subrange(nt + 12, nt + 16) =~= out.subrange(nt + 12, nt + 16));
    lemma_u32_at_same(g, nt + 12, out, nt + 12);
    if 0 <= i < n {
        let f = field_at(table, 40, 20, i);
        assert(g.subrange(f, f + 4) =~= out.subrange(f, f + 4));
        lemma_u32_at_same(g, f, out, f);
    }
    if 0 <= i < count {
        let f = field_at(debug, 28, 24, i);
        assert(g.subrange(f + grow, f + grow + 4) =~= out.subrange(f, f + 4));
        lemma_u32_at_same(g, f + grow, out, f);
    }
    if 0 <= i < old_size && is_in_field(debug, 28, 24, count, i) {
        let k = choose|k: int|
            0 <= k < count && #[trigger] field_at(debug, 28, 24, k) <= i < field_at(
                debug,
                28,
                24,
                k,
            ) + 4;
        assert(false);
    }
    if old_size <= i < data.len() && is_edited(headers, i) {
        let k = choose|k: int|
            0 <= k < n && #[trigger] field_at(table, 40, 20, k) <= i < field_at(table, 40, 20, k)
                + 4;
        assert(false);
    }
}

/// Where the section `i` of a table stands.
pub open spec fn entry_at(table: int, i: int) -> int {
    table + 40 * i
}

/// Whether a section has a name of 8 bytes.
pub open spec fn is_named(data: Seq<u8>, at: int, name: Seq<u8>) -> bool {
    data.subrange(at, at + 8) == name
}

/// `.symdb` and `.symdbh`.
pub open spec fn symdb() -> Seq<u8> {
    seq![0x2e, 0x73, 0x79, 0x6d, 0x64, 0x62, 0, 0]
}

pub open spec fn symdbh() -> Seq<u8> {
    seq![0x2e, 0x73, 0x79, 0x6d, 0x64, 0x62, 0x68, 0]
}

/// Where a section ends in memory.
pub open spec fn end_of(data: Seq<u8>, at: int) -> int {
    u32_at(data, at + 12) + u32_at(data, at + 8)
}

/// What the section table tells. The descriptor is the contents of a section `.symdbh` that has at least
/// 24 bytes in memory and in the file, no section is a `.symdb` yet, and the sections end where the
/// last of them ends.
pub proof fn law_pe_descriptor_is_its_section(
    data: Seq<u8>,
    table: int,
    k: int,
    n: int,
    found: PeSections,
)
    requires
        0 <= k <= n,
        pe_sections(data, entry_at(table, k), n - k, found) is Ok,
    ensures
        ({
            let all = pe_sections(data, entry_at(table, k), n - k, found)->Ok_0;
            &&& all.descriptor matches Some(descriptor) ==> found.descriptor == Some(descriptor)
                || exists|i: int|
                k <= i < n && #[trigger] is_named(data, entry_at(table, i), symdbh()) && u32_at(
                    data,
                    entry_at(table, i) + 20,
                ) == descriptor && u32_at(data, entry_at(table, i) + 8) >= 24 && u32_at(
                    data,
                    entry_at(table, i) + 16,
                ) >= 24
            &&& forall|i: int|
                k <= i < n ==> !#[trigger] is_named(data, entry_at(table, i), symdb())
            &&& found.end <= all.end
            &&& forall|i: int| k <= i < n ==> end_of(data, #[trigger] entry_at(table, i)) <= all.end
            &&& all.end == found.end || exists|i: int|
                k <= i < n && end_of(data, #[trigger] entry_at(table, i)) == all.end
        }),
    decreases n - k,
{
    if k < n {
        let off = entry_at(table, k);
        let end = end_of(data, off);
        let reached = if end > found.end {
            end as u64
        } else {
            found.end
        };
        let next = if is_named(data, off, symdbh()) {
            PeSections { descriptor: Some(u32_at(data, off + 20)), end: reached }
        } else {
            PeSections { end: reached, ..found }
        };
        assert(SYMDB_NAME@ =~= symdb() && SYMDBH_NAME@ =~= symdbh());
        assert(entry_at(table, k + 1) == off + 40);
        assert(n - (k + 1) == n - k - 1);
        assert(is_named(data, entry_at(table, k), symdb()) || !is_named(
            data,
            entry_at(table, k),
            symdb(),
        ));
        law_pe_descriptor_is_its_section(data, table, k + 1, n, next);
    }
}

} // verus!
