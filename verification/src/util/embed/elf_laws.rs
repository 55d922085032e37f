//! What an ELF image with a blob embedded is, by its own headers.

use vstd::prelude::*;
use crate::bytes::{
    group_field_len, le16, le32, le64, lemma_align_int, lemma_u16_at_le, lemma_u16_at_same,
    lemma_u32_at_le, lemma_u64_at_le, lemma_u64_at_same, overlay, resized, u16_at, u32_at, u64_at,
};
use super::descriptor::{law_descriptor_is_patched_once, patched};
use super::elf::{
    elf_assembled, elf_descriptor, elf_embedded, elf_name, elf_parts, elf_phdrs, elf_retargeted,
    elf_shdrs, law_elf_descriptor_finds_blob, layout_lies, lemma_assembled, lemma_load_range,
    lemma_phdr_index, lemma_phdrs_len, load_range, phdr_bytes, phdr_index, tables_lie, ElfLayout,
    ElfTables, LoadRange, SYMDBH_NAME, SYMDB_ENTRY, SYMDB_NAME,
};

verus! {

/// Where the program header `i` of an image stands, and how many there are.
pub open spec fn program_header(image: Seq<u8>, i: int) -> int {
    u64_at(image, 32) + 56 * i
}

pub open spec fn program_headers(image: Seq<u8>) -> int {
    u16_at(image, 56) as int
}

/// Where the section header `i` of an image stands, and how many there are.
pub open spec fn section_header(image: Seq<u8>, i: int) -> int {
    u64_at(image, 40) + 64 * i
}

pub open spec fn section_headers(image: Seq<u8>) -> int {
    u16_at(image, 60) as int
}

/// The bytes of a header.
pub open spec fn header_bytes(image: Seq<u8>, at: int, size: int) -> Seq<u8> {
    image.subrange(at, at + size)
}

/// Whether the program header `i` of two tables is the same.
pub open spec fn is_header_kept(a: Seq<u8>, at: int, b: Seq<u8>, other: int, i: int) -> bool {
    header_bytes(a, at + 56 * i, 56) == header_bytes(b, other + 56 * i, 56)
}

/// Whether the byte `i` behind two places is the same.
pub open spec fn is_byte_kept(a: Seq<u8>, at: int, b: Seq<u8>, other: int, i: int) -> bool {
    a[at + i] == b[other + i]
}

/// How many program headers come in front of those of the image.
pub open spec fn added_in_front(layout: ElfLayout) -> int {
    if layout.phdr_index is None {
        1
    } else {
        0
    }
}

/// The parts of the grown file.
proof fn lemma_grown(
    data: Seq<u8>,
    source: Seq<u8>,
    blob: Seq<u8>,
    tables: ElfTables,
    layout: ElfLayout,
)
    requires
        tables_lie(source, tables),
        data.len() == source.len(),
        layout_lies(source, tables, layout, blob.len() as int),
        layout.phnum == tables.phnum + 1 + (if layout.phdr_index is None {
            1int
        } else {
            0
        }),
    ensures
        ({
            let out = elf_assembled(data, source, blob, tables, layout);
            let base = layout.base as int;
            let shoff = layout.shoff as int;
            &&& out.len() == shoff + 64 * (tables.shnum + 1)
            &&& out.subrange(0, data.len() as int) == elf_retargeted(data, tables, layout)
            &&& out.subrange(base, base + 56 * layout.phnum) == elf_phdrs(
                source,
                tables,
                layout,
                blob.len() as int,
            )
            &&& out.subrange(layout.blob as int, layout.blob + blob.len()) == blob
            &&& out.subrange(layout.names as int, layout.names + tables.names_len + 6)
                == source.subrange(tables.names as int, tables.names + tables.names_len)
                + SYMDB_ENTRY@
            &&& out.subrange(shoff, shoff + 64 * (tables.shnum + 1)) == elf_shdrs(
                source,
                tables,
                layout,
                blob.len() as int,
            )
        }),
{
    broadcast use group_field_len;

    let r = elf_retargeted(data, tables, layout);
    let phdrs = elf_phdrs(source, tables, layout, blob.len() as int);
    let shdrs = elf_shdrs(source, tables, layout, blob.len() as int);
    let names = source.subrange(tables.names as int, tables.names + tables.names_len)
        + SYMDB_ENTRY@;
    lemma_phdrs_len(source, tables, layout, blob.len() as int);
    assert(r.len() == data.len());
    assert(shdrs.len() == 64 * (tables.shnum + 1));
    assert(names.len() == tables.names_len + 6);
    let base = resized(r, layout.base as int);
    assert(base.len() == layout.base);
    assert(base.subrange(0, data.len() as int) =~= r);
    let front = resized(base + phdrs, layout.blob as int);
    assert(front.len() == layout.blob);
    assert(front.subrange(0, data.len() as int) =~= r);
    assert(front.subrange(layout.base as int, layout.base + 56 * layout.phnum) =~= phdrs);
    let middle = resized(front + blob + names, layout.shoff as int);
    assert(middle.len() == layout.shoff);
    assert(middle.subrange(0, layout.blob as int) =~= front);
    assert(middle.subrange(layout.blob as int, layout.blob + blob.len()) =~= blob);
    assert(middle.subrange(layout.names as int, layout.names + names.len()) =~= names);
    let out = middle + shdrs;
    assert(out.subrange(0, layout.shoff as int) =~= middle);
    assert(out.subrange(0, data.len() as int) =~= front.subrange(0, data.len() as int));
    assert(out.subrange(layout.base as int, layout.base + 56 * layout.phnum) =~= front.subrange(
        layout.base as int,
        layout.base + 56 * layout.phnum,
    ));
    assert(out.subrange(layout.blob as int, layout.blob + blob.len()) =~= blob);
    assert(out.subrange(layout.names as int, layout.names + names.len()) =~= names);
    assert(out.subrange(layout.shoff as int, out.len() as int) =~= shdrs);
}

/// The header of the file points at the tables, and keeps the rest.
proof fn lemma_file_header(out: Seq<u8>, data: Seq<u8>, tables: ElfTables, layout: ElfLayout)
    requires
        64 <= data.len() <= out.len(),
        out.subrange(0, data.len() as int) == elf_retargeted(data, tables, layout),
        layout.phnum <= 0xffff,
        tables.shnum < 0xffff,
    ensures
        u64_at(out, 32) == layout.base,
        u16_at(out, 56) == layout.phnum,
        u64_at(out, 40) == layout.shoff,
        u16_at(out, 60) == tables.shnum + 1,
        forall|i: int|
            0 <= i < data.len() && !(32 <= i < 48) && !(56 <= i < 58) && !(60 <= i < 62)
                ==> #[trigger] out[i] == data[i],
{
    broadcast use group_field_len;

    let r = elf_retargeted(data, tables, layout);
    assert(forall|i: int| 0 <= i < data.len() ==> #[trigger] out[i] == r[i]) by {
        assert forall|i: int| 0 <= i < data.len() implies #[trigger] out[i] == r[i] by {
            assert(out.subrange(0, data.len() as int)[i] == out[i]);
        }
    }
    assert(out.subrange(32, 40) =~= le64(layout.base));
    lemma_u64_at_le(out, 32, layout.base);
    assert(out.subrange(56, 58) =~= le16((layout.phnum as u64) as u16));
    lemma_u16_at_le(out, 56, layout.phnum as u16);
    assert(out.subrange(40, 48) =~= le64(layout.shoff));
    lemma_u64_at_le(out, 40, layout.shoff);
    assert(out.subrange(60, 62) =~= le16((tables.shnum as u32 + 1) as u16));
    lemma_u16_at_le(out, 60, (tables.shnum + 1) as u16);
}

/// Whether a program header at an offset is read-only, its addresses all being `offset`.
pub open spec fn is_read_only(
    image: Seq<u8>,
    at: int,
    kind: u32,
    offset: int,
    size: int,
) -> bool {
    &&& u32_at(image, at) == kind
    &&& u32_at(image, at + 4) == 4
    &&& u64_at(image, at + 8) == offset
    &&& u64_at(image, at + 16) == offset
    &&& u64_at(image, at + 24) == offset
    &&& u64_at(image, at + 32) == size
    &&& u64_at(image, at + 40) == size
}

proof fn lemma_phdr_fields(
    out: Seq<u8>,
    at: int,
    kind: u32,
    offset: u64,
    size: u64,
    align: u64,
)
    requires
        0 <= at,
        at + 56 <= out.len(),
        out.subrange(at, at + 56) == phdr_bytes(kind, offset, size, align),
    ensures
        is_read_only(out, at, kind, offset as int, size as int),
        u64_at(out, at + 48) == align,
{
    broadcast use group_field_len;

    let b = phdr_bytes(kind, offset, size, align);
    assert(out.subrange(at, at + 4) =~= b.subrange(0, 4));
    assert(b.subrange(0, 4) =~= le32(kind));
    lemma_u32_at_le(out, at, kind);
    assert(out.subrange(at + 4, at + 8) =~= b.subrange(4, 8));
    assert(b.subrange(4, 8) =~= le32(4));
    lemma_u32_at_le(out, at + 4, 4);
    assert(out.subrange(at + 8, at + 16) =~= b.subrange(8, 16));
    assert(b.subrange(8, 16) =~= le64(offset));
    lemma_u64_at_le(out, at + 8, offset);
    assert(out.subrange(at + 16, at + 24) =~= b.subrange(16, 24));
    assert(b.subrange(16, 24) =~= le64(offset));
    lemma_u64_at_le(out, at + 16, offset);
    assert(out.subrange(at + 24, at + 32) =~= b.subrange(24, 32));
    assert(b.subrange(24, 32) =~= le64(offset));
    lemma_u64_at_le(out, at + 24, offset);
    assert(out.subrange(at + 32, at + 40) =~= b.subrange(32, 40));
    assert(b.subrange(32, 40) =~= le64(size));
    lemma_u64_at_le(out, at + 32, size);
    assert(out.subrange(at + 40, at + 48) =~= b.subrange(40, 48));
    assert(b.subrange(40, 48) =~= le64(size));
    lemma_u64_at_le(out, at + 40, size);
    assert(out.subrange(at + 48, at + 56) =~= b.subrange(48, 56));
    assert(b.subrange(48, 56) =~= le64(align));
    lemma_u64_at_le(out, at + 48, align);
}

/// Whether an image has a program header that describes the table itself, the first such one being `k`.
pub open spec fn describes_itself(image: Seq<u8>, k: int) -> bool {
    &&& 0 <= k < program_headers(image)
    &&& u32_at(image, program_header(image, k)) == 6
    &&& forall|i: int|
        0 <= i < k ==> u32_at(image, #[trigger] program_header(image, i)) != 6
}

proof fn lemma_first_phdr(data: Seq<u8>, phoff: int, phnum: int, from: int)
    requires
        0 <= from,
        phoff == u64_at(data, 32),
        phnum == u16_at(data, 56),
        forall|i: int| 0 <= i < from ==> u32_at(data, #[trigger] program_header(data, i)) != 6,
    ensures
        phdr_index(data, phoff, phnum, from) matches Some(k) ==> describes_itself(data, k),
        phdr_index(data, phoff, phnum, from) is None ==> forall|k: int|
            !#[trigger] describes_itself(data, k),
        forall|k: int| #[trigger]
            describes_itself(data, k) ==> phdr_index(data, phoff, phnum, from) == Some(k),
    decreases phnum - from,
{
    if from < phnum {
        assert(program_header(data, from) == phoff + 56 * from);
        if u32_at(data, phoff + 56 * from) != 6 {
            lemma_first_phdr(data, phoff, phnum, from + 1);
        } else {
            assert forall|k: int| #[trigger] describes_itself(data, k) implies k == from by {
                if k > from {
                    assert(u32_at(data, program_header(data, from)) != 6);
                }
            }
        }
    }
}

/// What the new segment keeps clear of: it begins behind every loaded segment and is aligned as much as
/// each of them.
pub open spec fn is_clear_of(data: Seq<u8>, i: int, base: int, align: int) -> bool {
    let at = program_header(data, i);
    u32_at(data, at) == 1 ==> u64_at(data, at + 16) + u64_at(data, at + 40) <= base && u64_at(
        data,
        at + 48,
    ) <= align
}

proof fn lemma_clear(data: Seq<u8>, off: int, n: int, found: LoadRange, i: int)
    requires
        load_range(data, off, n, found) is Ok,
    ensures
        ({
            let range = load_range(data, off, n, found)->Ok_0;
            let at = off + 56 * i;
            &&& range.end >= found.end
            &&& range.align >= found.align
            &&& 0 <= i < n && u32_at(data, at) == 1 ==> u64_at(data, at + 16) + u64_at(
                data,
                at + 40,
            ) <= range.end && u64_at(data, at + 48) <= range.align
        }),
    decreases n,
{
    if n > 0 {
        let align = u64_at(data, off + 48);
        let end = u64_at(data, off + 16) + u64_at(data, off + 40);
        let next = if u32_at(data, off) != 1 {
            found
        } else {
            LoadRange {
                align: if align > found.align {
                    align
                } else {
                    found.align
                },
                end: if end > found.end {
                    end as u64
                } else {
                    found.end
                },
            }
        };
        lemma_clear(data, off + 56, n - 1, next, i - 1);
    }
}

/// The program headers of the grown file.
proof fn lemma_program_headers(
    out: Seq<u8>,
    source: Seq<u8>,
    tables: ElfTables,
    layout: ElfLayout,
    blob_len: int,
)
    requires
        tables_lie(source, tables),
        layout.phdr_index matches Some(i) ==> i < tables.phnum,
        layout.phnum == tables.phnum + 1 + (if layout.phdr_index is None {
            1int
        } else {
            0
        }),
        layout.base + 56 * layout.phnum <= out.len(),
        layout.blob - layout.base + blob_len <= u64::MAX,
        layout.blob >= layout.base,
        blob_len >= 0,
        56 * layout.phnum <= u64::MAX,
        out.subrange(layout.base as int, layout.base + 56 * layout.phnum) == elf_phdrs(
            source,
            tables,
            layout,
            blob_len,
        ),
    ensures
        ({
            let base = layout.base as int;
            let n = layout.phnum as int;
            let own = match layout.phdr_index {
                Some(k) => k as int,
                None => 0,
            };
            let shift = added_in_front(layout);
            let last = base + 56 * (n - 1);
            &&& is_read_only(out, last, 1, base, layout.blob - base + blob_len)
            &&& u64_at(out, last + 48) == layout.align
            &&& is_read_only(out, base + 56 * own, 6, base, 56 * n)
            &&& forall|i: int|
                0 <= i < tables.phnum && (layout.phdr_index is None || i != own)
                    ==> #[trigger] is_header_kept(
                    out,
                    base + 56 * added_in_front(layout),
                    source,
                    tables.phoff as int,
                    i,
                )
        }),
{
    broadcast use group_field_len;

    let base = layout.base as int;
    let n = layout.phnum as int;
    let table = elf_phdrs(source, tables, layout, blob_len);
    lemma_phdrs_len(source, tables, layout, blob_len);
    let own = phdr_bytes(6, layout.base, (56 * layout.phnum) as u64, 8);
    let size = (layout.blob - layout.base + blob_len) as u64;
    let load = phdr_bytes(1, layout.base, size, layout.align);
    let old_table = source.subrange(tables.phoff as int, tables.phoff + 56 * tables.phnum);
    let last = base + 56 * (n - 1);
    assert(own.len() == 56 && load.len() == 56);
    assert(out.subrange(last, last + 56) =~= table.subrange(56 * (n - 1), 56 * n));
    assert(table.subrange(56 * (n - 1), 56 * n) =~= load);
    lemma_phdr_fields(out, last, 1, layout.base, size, layout.align);
    let k = match layout.phdr_index {
        Some(k) => k as int,
        None => 0,
    };
    let shift = added_in_front(layout);
    assert(out.subrange(base + 56 * k, base + 56 * k + 56) =~= table.subrange(
        56 * k,
        56 * k + 56,
    ));
    assert(table.subrange(56 * k, 56 * k + 56) =~= own);
    lemma_phdr_fields(out, base + 56 * k, 6, layout.base, (56 * layout.phnum) as u64, 8);
    assert forall|i: int|
        0 <= i < tables.phnum && (layout.phdr_index is None || i != k) implies #[trigger] is_header_kept(
        out,
        base + 56 * added_in_front(layout),
        source,
        tables.phoff as int,
        i,
    ) by {
        let at = 56 * (i + shift);
        assert(out.subrange(base + at, base + at + 56) =~= table.subrange(at, at + 56));
        assert(table.subrange(at, at + 56) =~= old_table.subrange(56 * i, 56 * i + 56));
        assert(old_table.subrange(56 * i, 56 * i + 56) =~= source.subrange(
            tables.phoff + 56 * i,
            tables.phoff + 56 * i + 56,
        ));
    }
}

/// The section headers of the grown file.
proof fn lemma_section_headers(
    out: Seq<u8>,
    source: Seq<u8>,
    tables: ElfTables,
    layout: ElfLayout,
    blob_len: int,
)
    requires
        tables_lie(source, tables),
        tables.names_len + 6 <= u64::MAX,
        tables.names_len <= u32::MAX,
        0 <= blob_len <= u64::MAX,
        layout.shoff + 64 * (tables.shnum + 1) <= out.len(),
        out.subrange(layout.shoff as int, layout.shoff + 64 * (tables.shnum + 1)) == elf_shdrs(
            source,
            tables,
            layout,
            blob_len,
        ),
    ensures
        ({
            let shoff = layout.shoff as int;
            let last = shoff + 64 * tables.shnum;
            let names = shoff + 64 * tables.shstrndx;
            &&& forall|i: int|
                0 <= i < 64 * tables.shnum && !(64 * tables.shstrndx + 24 <= i < 64
                    * tables.shstrndx + 40) ==> #[trigger] is_byte_kept(
                    out,
                    shoff,
                    source,
                    tables.shoff as int,
                    i,
                )
            &&& u64_at(out, names + 24) == layout.names
            &&& u64_at(out, names + 32) == tables.names_len + 6
            &&& u32_at(out, last) == tables.names_len
            &&& u32_at(out, last + 4) == 1
            &&& u64_at(out, last + 8) == 2
            &&& u64_at(out, last + 16) == layout.blob
            &&& u64_at(out, last + 24) == layout.blob
            &&& u64_at(out, last + 32) == blob_len
        }),
{
    broadcast use group_field_len;

    let shoff = layout.shoff as int;
    let all = elf_shdrs(source, tables, layout, blob_len);
    let old_table = source.subrange(tables.shoff as int, tables.shoff + 64 * tables.shnum);
    let k = 64 * tables.shstrndx;
    let kept = overlay(old_table, k + 24, le64(layout.names) + le64((tables.names_len + 6) as u64));
    let new = le32(tables.names_len as u32) + le32(1) + le64(2) + le64(layout.blob) + le64(
        layout.blob,
    ) + le64(blob_len as u64) + le32(0) + le32(0) + le64(16) + le64(0);
    let end = 64 * tables.shnum as int;
    assert(all =~= kept + new);
    assert(all.len() == end + 64);
    assert forall|i: int|
        0 <= i < end && !(k + 24 <= i < k + 40) implies #[trigger] is_byte_kept(
        out,
        shoff,
        source,
        tables.shoff as int,
        i,
    ) by {
        assert(out.subrange(shoff, shoff + end + 64)[i] == all[i]);
        assert(kept[i] == old_table[i]);
    }
    assert(out.subrange(shoff + k + 24, shoff + k + 32) =~= all.subrange(k + 24, k + 32));
    assert(all.subrange(k + 24, k + 32) =~= le64(layout.names));
    lemma_u64_at_le(out, shoff + k + 24, layout.names);
    assert(out.subrange(shoff + k + 32, shoff + k + 40) =~= all.subrange(k + 32, k + 40));
    assert(all.subrange(k + 32, k + 40) =~= le64((tables.names_len + 6) as u64));
    lemma_u64_at_le(out, shoff + k + 32, (tables.names_len + 6) as u64);
    let last = shoff + end;
    assert(out.subrange(last, last + 64) =~= all.subrange(end, end + 64));
    assert(all.subrange(end, end + 64) =~= new);
    lemma_new_section(out, last, tables.names_len as u32, layout.blob, blob_len as u64);
}

proof fn lemma_new_section(out: Seq<u8>, at: int, name: u32, address: u64, size: u64)
    requires
        0 <= at,
        at + 64 <= out.len(),
        out.subrange(at, at + 64) == le32(name) + le32(1) + le64(2) + le64(address) + le64(address)
            + le64(size) + le32(0) + le32(0) + le64(16) + le64(0),
    ensures
        u32_at(out, at) == name,
        u32_at(out, at + 4) == 1,
        u64_at(out, at + 8) == 2,
        u64_at(out, at + 16) == address,
        u64_at(out, at + 24) == address,
        u64_at(out, at + 32) == size,
{
    broadcast use group_field_len;

    let b = out.subrange(at, at + 64);
    assert(out.subrange(at, at + 4) =~= b.subrange(0, 4));
    assert(b.subrange(0, 4) =~= le32(name));
    lemma_u32_at_le(out, at, name);
    assert(out.subrange(at + 4, at + 8) =~= b.subrange(4, 8));
    assert(b.subrange(4, 8) =~= le32(1));
    lemma_u32_at_le(out, at + 4, 1);
    assert(out.subrange(at + 8, at + 16) =~= b.subrange(8, 16));
    assert(b.subrange(8, 16) =~= le64(2));
    lemma_u64_at_le(out, at + 8, 2);
    assert(out.subrange(at + 16, at + 24) =~= b.subrange(16, 24));
    assert(b.subrange(16, 24) =~= le64(address));
    lemma_u64_at_le(out, at + 16, address);
    assert(out.subrange(at + 24, at + 32) =~= b.subrange(24, 32));
    assert(b.subrange(24, 32) =~= le64(address));
    lemma_u64_at_le(out, at + 24, address);
    assert(out.subrange(at + 32, at + 40) =~= b.subrange(32, 40));
    assert(b.subrange(32, 40) =~= le64(size));
    lemma_u64_at_le(out, at + 32, size);
}

/// Where the names of the sections of an image stand, and how long they are.
pub open spec fn names_at(image: Seq<u8>) -> (int, int) {
    let at = section_header(image, u16_at(image, 62) as int);
    (u64_at(image, at + 24) as int, u64_at(image, at + 32) as int)
}

/// Whether one more program header, or two, and one more section header can be counted.
pub open spec fn has_room_for_headers(data: Seq<u8>) -> bool {
    program_headers(data) + 2 <= 0xffff && section_headers(data) + 1 <= 0xffff && names_at(data).1
        <= u32::MAX
}

/// What holds of the parts of an image that was accepted.
proof fn lemma_accepted(data: Seq<u8>, blob: Seq<u8>)
    requires
        data.len() <= usize::MAX,
        elf_embedded(data, blob).is_ok(),
    ensures
        ({
            let (tables, descriptor, layout) = elf_parts(data, blob);
            let p = patched(data, descriptor, layout.blob, blob.len() as u64);
            &&& p is Ok
            &&& p->Ok_0.len() == data.len()
            &&& forall|i: int|
                0 <= i < data.len() && !(descriptor + 8 <= i < descriptor + 24)
                    ==> #[trigger] p->Ok_0[i] == data[i]
            &&& elf_embedded(data, blob)->Ok_0 == elf_assembled(
                p->Ok_0,
                data,
                blob,
                tables,
                layout,
            )
            &&& tables_lie(data, tables)
            &&& layout_lies(data, tables, layout, blob.len() as int)
            &&& tables.phoff == u64_at(data, 32)
            &&& tables.phnum == u16_at(data, 56)
            &&& tables.shoff == u64_at(data, 40)
            &&& tables.shnum == u16_at(data, 60)
            &&& tables.shstrndx == u16_at(data, 62)
            &&& (tables.names as int, tables.names_len as int) == names_at(data)
            &&& layout.phnum == tables.phnum + 1 + (if layout.phdr_index is None {
                1int
            } else {
                0
            })
            &&& layout.phdr_index matches Some(k) ==> describes_itself(data, k as int)
            &&& layout.phdr_index is None ==> forall|k: int| !#[trigger] describes_itself(data, k)
            &&& layout.base % layout.align == 0
            &&& layout.align >= 0x1000
            &&& forall|i: int|
                0 <= i < tables.phnum ==> #[trigger] is_clear_of(
                    data,
                    i,
                    layout.base as int,
                    layout.align as int,
                )
        }),
{
    broadcast use group_field_len;

    let (tables, descriptor, layout) = elf_parts(data, blob);
    let first = LoadRange { align: 0x1000, end: 0 };
    let range = load_range(data, tables.phoff as int, tables.phnum as int, first)->Ok_0;
    lemma_load_range(data, tables.phoff as int, tables.phnum as int, first);
    lemma_phdr_index(data, tables.phoff as int, tables.phnum as int, 0);
    lemma_first_phdr(data, tables.phoff as int, tables.phnum as int, 0);
    let start = if data.len() > range.end {
        data.len() as int
    } else {
        range.end as int
    };
    lemma_align_int(start, range.align as int);
    lemma_align_int(56 * layout.phnum, 16);
    lemma_align_int(layout.names + tables.names_len + 6, 8);
    assert forall|i: int| 0 <= i < tables.phnum implies #[trigger] is_clear_of(
        data,
        i,
        layout.base as int,
        layout.align as int,
    ) by {
        lemma_clear(data, tables.phoff as int, tables.phnum as int, first, i);
    }
}

/// The blob is part of the image. The last program header is a read-only `PT_LOAD` whose file offset is
/// its address: it holds the program headers, which are 56 bytes each, and ends with the blob. It is
/// aligned to at least 4 KiB and lies behind the file as it was and behind every loaded segment. A
/// `PT_PHDR` names the same table. The last section, `symdb`, is the blob.
pub proof fn law_elf_blob_is_loaded(data: Seq<u8>, blob: Seq<u8>)
    requires
        data.len() <= usize::MAX,
        elf_embedded(data, blob).is_ok(),
        64 <= elf_parts(data, blob).1,
        has_room_for_headers(data),
    ensures
        ({
            let out = elf_embedded(data, blob)->Ok_0;
            let n = program_headers(out);
            let base = u64_at(out, 32) as int;
            let load = program_header(out, n - 1);
            let align = u64_at(out, load + 48) as int;
            let at = u64_at(out, elf_parts(data, blob).1 + 8) as int;
            let symdb = section_header(out, section_headers(out) - 1);
            let (names, names_len) = names_at(out);
            &&& is_read_only(out, load, 1, base, at + blob.len() - base)
            &&& base + 56 * n <= at
            &&& at + blob.len() <= out.len()
            &&& out.subrange(at, at + blob.len()) == blob
            &&& base >= data.len()
            &&& base % align == 0
            &&& align >= 0x1000
            &&& forall|i: int|
                0 <= i < program_headers(data) ==> #[trigger] is_clear_of(data, i, base, align)
            &&& exists|k: int|
                0 <= k < n - 1 && is_read_only(out, #[trigger] program_header(out, k), 6, base, 56 * n)
            &&& section_header(out, section_headers(out)) <= out.len()
            &&& names + names_len <= out.len()
            &&& u32_at(out, symdb) + 6 == names_len
            &&& out.subrange(names + names_len - 6, names + names_len) == seq![
                0x73u8,
                0x79,
                0x6d,
                0x64,
                0x62,
                0,
            ]
            &&& u32_at(out, symdb + 4) == 1
            &&& u64_at(out, symdb + 8) == 2
            &&& u64_at(out, symdb + 16) == at
            &&& u64_at(out, symdb + 24) == at
            &&& u64_at(out, symdb + 32) == blob.len()
        }),
{
    let out = elf_embedded(data, blob)->Ok_0;
    let (tables, descriptor, layout) = elf_parts(data, blob);
    lemma_accepted(data, blob);
    law_elf_descriptor_finds_blob(data, blob);
    let p = patched(data, descriptor, layout.blob, blob.len() as u64)->Ok_0;
    lemma_grown(p, data, blob, tables, layout);
    lemma_file_header(out, p, tables, layout);
    lemma_program_headers(out, data, tables, layout, blob.len() as int);
    lemma_section_headers(out, data, tables, layout, blob.len() as int);
    lemma_descriptor_address(data, blob);
    assert(out.subrange(62, 64) =~= data.subrange(62, 64));
    lemma_u16_at_same(out, 62, data, 62);
    let own = match layout.phdr_index {
        Some(k) => k as int,
        None => 0,
    };
    assert(program_header(out, own) == layout.base + 56 * own);
    let stored = data.subrange(tables.names as int, tables.names + tables.names_len) + SYMDB_ENTRY@;
    let names = layout.names as int;
    let end = names + tables.names_len + 6;
    assert(out.subrange(end - 6, end) =~= out.subrange(names, end).subrange(
        tables.names_len as int,
        tables.names_len + 6,
    ));
    assert(stored.subrange(tables.names_len as int, tables.names_len + 6) =~= seq![
        0x73u8,
        0x79,
        0x6d,
        0x64,
        0x62,
        0,
    ]);
}

proof fn lemma_descriptor_address(data: Seq<u8>, blob: Seq<u8>)
    requires
        data.len() <= usize::MAX,
        elf_embedded(data, blob).is_ok(),
        64 <= elf_parts(data, blob).1,
    ensures
        u64_at(elf_embedded(data, blob)->Ok_0, elf_parts(data, blob).1 + 8) == elf_parts(
            data,
            blob,
        ).2.blob,
{
    let out = elf_embedded(data, blob)->Ok_0;
    let (tables, descriptor, layout) = elf_parts(data, blob);
    lemma_accepted(data, blob);
    let p = patched(data, descriptor, layout.blob, blob.len() as u64)->Ok_0;
    law_descriptor_is_patched_once(data, descriptor, layout.blob, blob.len() as u64, 0, 0);
    lemma_assembled(p, data, blob, tables, layout);
    assert(out.subrange(descriptor + 8, descriptor + 16) =~= p.subrange(
        descriptor + 8,
        descriptor + 16,
    ));
    lemma_u64_at_same(out, descriptor + 8, p, descriptor + 8);
}

/// Every program header stays as it is, but for the `PT_PHDR`; where there is none, it comes in front of
/// the others.
pub proof fn law_elf_program_headers_are_kept(data: Seq<u8>, blob: Seq<u8>, i: int)
    requires
        data.len() <= usize::MAX,
        elf_embedded(data, blob).is_ok(),
        has_room_for_headers(data),
    ensures
        ({
            let out = elf_embedded(data, blob)->Ok_0;
            let added = program_headers(out) - program_headers(data);
            &&& if exists|k: int| #[trigger] describes_itself(data, k) {
                added == 1
            } else {
                added == 2
            }
            &&& 0 <= i < program_headers(data) && !describes_itself(data, i) ==> header_bytes(
                out,
                program_header(out, i + added - 1),
                56,
            ) == header_bytes(data, program_header(data, i), 56)
        }),
{
    let out = elf_embedded(data, blob)->Ok_0;
    let (tables, descriptor, layout) = elf_parts(data, blob);
    lemma_accepted(data, blob);
    let p = patched(data, descriptor, layout.blob, blob.len() as u64)->Ok_0;
    lemma_grown(p, data, blob, tables, layout);
    lemma_file_header(out, p, tables, layout);
    lemma_program_headers(out, data, tables, layout, blob.len() as int);
    let shift = added_in_front(layout);
    if 0 <= i < program_headers(data) && !describes_itself(data, i) {
        assert(is_header_kept(out, layout.base + 56 * added_in_front(layout), data, tables.phoff as int, i));
        assert(program_header(out, i + shift) == layout.base + 56 * shift + 56 * i);
    }
}

/// The contents of the image stay where they are, but for the fields of the file header that lead to
/// the tables, and the descriptor. Every section header stays as it is, but for where the names are,
/// and the names stay the same.
pub proof fn law_elf_contents_are_kept(data: Seq<u8>, blob: Seq<u8>, i: int)
    requires
        data.len() <= usize::MAX,
        elf_embedded(data, blob).is_ok(),
        64 <= elf_parts(data, blob).1,
        has_room_for_headers(data),
    ensures
        ({
            let out = elf_embedded(data, blob)->Ok_0;
            let descriptor = elf_parts(data, blob).1;
            let names_header = 64 * u16_at(data, 62);
            &&& 0 <= i < data.len() && !(32 <= i < 48) && !(56 <= i < 58) && !(60 <= i < 62) && !(
            descriptor + 8 <= i < descriptor + 24) ==> out[i] == data[i]
            &&& section_headers(out) == section_headers(data) + 1
            &&& 0 <= i < 64 * section_headers(data) && !(names_header + 24 <= i < names_header + 40)
                ==> is_byte_kept(out, section_header(out, 0), data, section_header(data, 0), i)
            &&& 0 <= i < names_at(data).1 ==> is_byte_kept(
                out,
                names_at(out).0,
                data,
                names_at(data).0,
                i,
            )
        }),
{
    let out = elf_embedded(data, blob)->Ok_0;
    let (tables, descriptor, layout) = elf_parts(data, blob);
    lemma_accepted(data, blob);
    let p = patched(data, descriptor, layout.blob, blob.len() as u64)->Ok_0;
    lemma_grown(p, data, blob, tables, layout);
    lemma_file_header(out, p, tables, layout);
    lemma_section_headers(out, data, tables, layout, blob.len() as int);
    assert(out.subrange(62, 64) =~= data.subrange(62, 64));
    lemma_u16_at_same(out, 62, data, 62);
    if 0 <= i < 64 * section_headers(data) {
        assert(section_header(out, 0) == layout.shoff);
        assert(section_header(data, 0) == tables.shoff);
    }
    if 0 <= i < names_at(data).1 {
        let names = layout.names as int;
        assert(out.subrange(names, names + tables.names_len + 6)[i] == out[names + i]);
    }
}

/// Whether a section of an image has a name: the bytes in the name table up to a zero byte or its end.
pub open spec fn is_section_named(image: Seq<u8>, i: int, name: Seq<u8>) -> bool {
    let (names, names_len) = names_at(image);
    let at = u32_at(image, section_header(image, i)) as int;
    &&& at + name.len() <= names_len
    &&& image.subrange(names + at, names + at + name.len()) == name
    &&& at + name.len() < names_len ==> image[names + at + name.len()] == 0
}

proof fn lemma_elf_name(image: Seq<u8>, at: int, n: int, off: int, name: Seq<u8>)
    requires
        0 <= at,
        0 <= off,
        0 <= n,
        at + n <= image.len(),
        name.len() > 0,
        !name.contains(0u8),
    ensures
        elf_name(image.subrange(at, at + n), off) == name <==> off + name.len() <= n
            && image.subrange(at + off, at + off + name.len()) == name && (off + name.len() < n
            ==> image[at + off + name.len()] == 0),
{
    let names = image.subrange(at, at + n);
    if off <= n {
        let rest = names.subrange(off, n);
        assert(names.len() == n);
        assert(forall|j: int| 0 <= j < n - off ==> #[trigger] rest[j] == image[at + off + j]);
        rest.index_of_first_ensures(0u8);
        if elf_name(names, off) == name {
            let len = name.len() as int;
            assert(rest.subrange(0, len) =~= name);
            assert(image.subrange(at + off, at + off + len) =~= rest.subrange(0, len));
            if off + len < n {
                assert(rest[len] == image[at + off + len]);
                assert(rest.index_of_first(0u8) == Some(len));
            }
        }
        if off + name.len() <= n && image.subrange(at + off, at + off + name.len()) == name && (off
            + name.len() < n ==> image[at + off + name.len()] == 0) {
            let len = name.len() as int;
            assert(rest.subrange(0, len) =~= image.subrange(at + off, at + off + len));
            assert forall|j: int| 0 <= j < len implies rest[j] != 0 by {
                assert(rest.subrange(0, len)[j] == name[j]);
                assert(name.contains(name[j]));
            }
            if off + len < n {
                assert(rest[len] == image[at + off + len]);
                assert(rest.contains(rest[len]));
                assert(rest.index_of_first(0u8) == Some(len));
            } else {
                assert(!rest.contains(0u8));
                assert(rest =~= rest.subrange(0, len));
            }
        }
    }
}

/// The names `symdb` and `symdbh`.
pub open spec fn symdb() -> Seq<u8> {
    seq![0x73, 0x79, 0x6d, 0x64, 0x62]
}

pub open spec fn symdbh() -> Seq<u8> {
    seq![0x73, 0x79, 0x6d, 0x64, 0x62, 0x68]
}

proof fn lemma_descriptor(data: Seq<u8>, tables: ElfTables, k: int, found: Option<u64>)
    requires
        tables_lie(data, tables),
        tables.shoff == u64_at(data, 40),
        tables.shnum == u16_at(data, 60),
        (tables.names as int, tables.names_len as int) == names_at(data),
        0 <= k <= tables.shnum,
    ensures
        ({
            let names = data.subrange(tables.names as int, tables.names + tables.names_len);
            let symdb = symdb();
            let symdbh = symdbh();
            elf_descriptor(
                data,
                names,
                section_header(data, k),
                tables.shnum - k,
                found,
            ) matches Ok(Some(descriptor)) ==> {
                &&& found == Some(descriptor) || exists|i: int|
                    k <= i < tables.shnum && #[trigger] is_section_named(data, i, symdbh) && u64_at(
                        data,
                        section_header(data, i) + 24,
                    ) == descriptor && u64_at(data, section_header(data, i) + 32) >= 24
                &&& forall|i: int|
                    k <= i < tables.shnum ==> !#[trigger] is_section_named(data, i, symdb)
            }
        }),
    decreases tables.shnum - k,
{
    if k < tables.shnum {
        let symdb = symdb();
        let symdbh = symdbh();
        let off = section_header(data, k);
        assert(SYMDB_NAME@ =~= symdb && SYMDBH_NAME@ =~= symdbh);
        lemma_elf_name(
            data,
            tables.names as int,
            tables.names_len as int,
            u32_at(data, off) as int,
            symdb,
        );
        lemma_elf_name(
            data,
            tables.names as int,
            tables.names_len as int,
            u32_at(data, off) as int,
            symdbh,
        );
        assert(section_header(data, k + 1) == off + 64);
        lemma_descriptor(data, tables, k + 1, found);
        lemma_descriptor(data, tables, k + 1, Some(u64_at(data, off + 24)));
        let names = data.subrange(tables.names as int, tables.names + tables.names_len);
        let name = elf_name(names, u32_at(data, off) as int);
        let n = tables.shnum - k;
        assert(tables.shnum - (k + 1) == n - 1);
        assert((name == symdb) == is_section_named(data, k, symdb));
        assert((name == symdbh) == is_section_named(data, k, symdbh));
        let all = elf_descriptor(data, names, off, n, found);
        if name == symdbh && u64_at(data, off + 32) >= 24 && name != symdb {
            assert(all == elf_descriptor(data, names, off + 64, n - 1, Some(u64_at(data, off + 24))));
        } else if name != symdb && name != symdbh {
            assert(all == elf_descriptor(data, names, off + 64, n - 1, found));
        } else {
            assert(all is Err);
        }
        if all matches Ok(Some(_)) {
            assert forall|i: int| k <= i < tables.shnum implies !#[trigger] is_section_named(
                data,
                i,
                symdb,
            ) by {
                if i > k {
                    assert(k + 1 <= i);
                }
            }
        }
    }
}

/// The descriptor that is patched is the contents of a section `symdbh` of at least 24 bytes, which
/// begins with `SYMDBHDR`, and no section is a `symdb` yet.
pub proof fn law_elf_descriptor_is_its_section(data: Seq<u8>, blob: Seq<u8>)
    requires
        data.len() <= usize::MAX,
        elf_embedded(data, blob).is_ok(),
    ensures
        ({
            let descriptor = elf_parts(data, blob).1;
            &&& exists|i: int|
                0 <= i < section_headers(data) && #[trigger] is_section_named(
                    data,
                    i,
                    symdbh(),
                ) && u64_at(data, section_header(data, i) + 24) == descriptor && u64_at(
                    data,
                    section_header(data, i) + 32,
                ) >= 24
            &&& forall|i: int|
                0 <= i < section_headers(data) ==> !#[trigger] is_section_named(
                    data,
                    i,
                    symdb(),
                )
            &&& descriptor + 24 <= data.len()
            &&& u64_at(data, descriptor) == 0x5244_4842_444d_5953
        }),
{
    lemma_accepted(data, blob);
    let (tables, descriptor, layout) = elf_parts(data, blob);
    assert(section_header(data, 0) == tables.shoff);
    lemma_descriptor(data, tables, 0, None);
}

} // verus!
