//! Embedding into ELF images.

use vstd::prelude::*;
use crate::bytes::{
    copy_bytes, find_zero, get_u16, get_u32, get_u64, group_field_len, le16, le32, le64,
    lemma_align_int, lemma_u64_at_same, overlay, push_bytes, push_u32, push_u64, put_bytes, put_u16, put_u64,
    resize_zero, resized, same_bytes, u16_at, u32_at, u64_at,
};
use super::descriptor::{
    align_to, aligned_to, law_descriptor_is_patched_once, patch_descriptor, patched, EmbedError,
};

verus! {

/// The section name `symdb` and the zero byte behind it.
pub const SYMDB_ENTRY: [u8; 6] = [0x73, 0x79, 0x6d, 0x64, 0x62, 0];

/// The section name `symdb`.
pub const SYMDB_NAME: [u8; 5] = [0x73, 0x79, 0x6d, 0x64, 0x62];

/// The section name `symdbh`.
pub const SYMDBH_NAME: [u8; 6] = [0x73, 0x79, 0x6d, 0x64, 0x62, 0x68];

pub const PT_LOAD: u32 = 1;

pub const PT_PHDR: u32 = 6;

pub const PF_R: u32 = 4;

pub const SHT_PROGBITS: u32 = 1;

pub const SHF_ALLOC: u64 = 2;

/// Where the tables of an image are.
#[derive(Clone, Copy, Debug, PartialEq, Eq, Structural)]
pub struct ElfTables {
    pub phoff: usize,
    pub phnum: u16,
    pub shoff: usize,
    pub shnum: u16,
    pub shstrndx: u16,
    /// Range of the section names.
    pub names: usize,
    pub names_len: usize,
}

/// The tables of an image, or why it is refused.
pub open spec fn elf_tables(data: Seq<u8>) -> Result<ElfTables, EmbedError> {
    let len = data.len() as int;
    let phoff = u64_at(data, 32) as int;
    let shoff = u64_at(data, 40) as int;
    let phnum = u16_at(data, 56);
    let shnum = u16_at(data, 60);
    let shstrndx = u16_at(data, 62);
    let names_header = shoff + 64 * shstrndx;
    let names = u64_at(data, names_header + 24) as int;
    let names_len = u64_at(data, names_header + 32) as int;
    if len < 64 {
        Err(EmbedError::TruncatedElfHeader)
    } else if data[4] != 2 || data[5] != 1 {
        Err(EmbedError::NotElf64)
    } else if u16_at(data, 54) != 56 || u16_at(data, 58) != 64 {
        Err(EmbedError::ElfEntrySizes)
    } else if phnum == 0xffff || shnum == 0 {
        Err(EmbedError::ElfExtendedCounts)
    } else if phoff + 56 * phnum > len {
        Err(EmbedError::TruncatedProgramHeaders)
    } else if shoff + 64 * shnum > len {
        Err(EmbedError::TruncatedSectionHeaders)
    } else if shstrndx >= shnum {
        Err(EmbedError::BadShstrndx)
    } else if names + names_len > len {
        Err(EmbedError::TruncatedShstrtab)
    } else {
        Ok(
            ElfTables {
                phoff: phoff as usize,
                phnum,
                shoff: shoff as usize,
                shnum,
                shstrndx,
                names: names as usize,
                names_len: names_len as usize,
            },
        )
    }
}

/// The section name at `off` in the name table: up to the next zero byte or the end.
pub open spec fn elf_name(names: Seq<u8>, off: int) -> Seq<u8> {
    if off > names.len() {
        Seq::empty()
    } else {
        let rest = names.subrange(off, names.len() as int);
        match rest.index_of_first(0u8) {
            Some(i) => rest.subrange(0, i),
            None => rest,
        }
    }
}

/// The file offset of the descriptor by the `n` section headers from `off` on, or why one of them
/// is refused.
pub open spec fn elf_descriptor(
    data: Seq<u8>,
    names: Seq<u8>,
    off: int,
    n: int,
    found: Option<u64>,
) -> Result<Option<u64>, EmbedError>
    decreases n,
{
    let name = elf_name(names, u32_at(data, off) as int);
    if n <= 0 {
        Ok(found)
    } else if name == SYMDB_NAME@ {
        Err(EmbedError::AlreadyEmbedded)
    } else if name == SYMDBH_NAME@ {
        if u64_at(data, off + 32) < 24 {
            Err(EmbedError::DescriptorTooSmall)
        } else {
            elf_descriptor(data, names, off + 64, n - 1, Some(u64_at(data, off + 24)))
        }
    } else {
        elf_descriptor(data, names, off + 64, n - 1, found)
    }
}

/// The alignment of the loaded segments and the end of the address space that they take.
#[derive(Clone, Copy, Debug, PartialEq, Eq, Structural)]
pub struct LoadRange {
    pub align: u64,
    pub end: u64,
}

/// What the `n` program headers from `off` on add to `found`.
pub open spec fn load_range(data: Seq<u8>, off: int, n: int, found: LoadRange) -> Result<
    LoadRange,
    EmbedError,
>
    decreases n,
{
    let align = u64_at(data, off + 48);
    let end = u64_at(data, off + 16) + u64_at(data, off + 40);
    if n <= 0 {
        Ok(found)
    } else if u32_at(data, off) != PT_LOAD {
        load_range(data, off + 56, n - 1, found)
    } else if end > u64::MAX {
        Err(EmbedError::Overflow)
    } else {
        load_range(
            data,
            off + 56,
            n - 1,
            LoadRange {
                align: if align > found.align {
                    align
                } else {
                    found.align
                },
                end: if end > found.end {
                    end as u64
                } else {
                    found.end
                },
            },
        )
    }
}

/// The first of the program headers from `from` on that describes the table itself.
pub open spec fn phdr_index(data: Seq<u8>, phoff: int, phnum: int, from: int) -> Option<int>
    decreases phnum - from,
{
    if from >= phnum {
        None
    } else if u32_at(data, phoff + 56 * from) == PT_PHDR {
        Some(from)
    } else {
        phdr_index(data, phoff, phnum, from + 1)
    }
}

/// A read-only program header whose addresses are all `offset`.
pub open spec fn phdr_bytes(p_type: u32, offset: u64, size: u64, align: u64) -> Seq<u8> {
    le32(p_type) + le32(PF_R) + le64(offset) + le64(offset) + le64(offset) + le64(size) + le64(size)
        + le64(align)
}

/// Where the parts of the grown image go.
#[derive(Clone, Copy, Debug, PartialEq, Eq, Structural)]
pub struct ElfLayout {
    /// Offset and address of the new segment: past the end of the file *and* of the address space,
    /// so the file grows in place and no existing segment overlaps.
    pub base: u64,
    pub align: u64,
    pub phdr_index: Option<u16>,
    pub phnum: u64,
    pub blob: u64,
    pub names: u64,
    pub shoff: u64,
}

/// The layout of the grown image.
pub open spec fn elf_layout(data: Seq<u8>, tables: ElfTables, blob_len: int) -> Result<
    ElfLayout,
    EmbedError,
> {
    match load_range(
        data,
        tables.phoff as int,
        tables.phnum as int,
        LoadRange { align: 0x1000, end: 0 },
    ) {
        Err(e) => Err(e),
        Ok(range) => {
            let start = if data.len() > range.end {
                data.len() as int
            } else {
                range.end as int
            };
            let base = aligned_to(start, range.align as int);
            let index = phdr_index(data, tables.phoff as int, tables.phnum as int, 0);
            let phnum = tables.phnum + 1 + if index is None {
                1int
            } else {
                0
            };
            let blob = base + aligned_to(56 * phnum, 16);
            let names = blob + blob_len;
            let shoff = aligned_to(names + tables.names_len + 6, 8);
            if shoff + 64 * (tables.shnum + 1) > u64::MAX || shoff + 64 * (tables.shnum + 1)
                > usize::MAX {
                Err(EmbedError::Overflow)
            } else {
                Ok(
                    ElfLayout {
                        base: base as u64,
                        align: range.align,
                        phdr_index: match index {
                            Some(i) => Some(i as u16),
                            None => None,
                        },
                        phnum: phnum as u64,
                        blob: blob as u64,
                        names: names as u64,
                        shoff: shoff as u64,
                    },
                )
            }
        },
    }
}

/// The program headers of the grown image: the header of the table itself, which must precede any
/// `PT_LOAD`, is updated or added in front; the new segment comes last.
pub open spec fn elf_phdrs(data: Seq<u8>, tables: ElfTables, layout: ElfLayout, blob_len: int) -> Seq<
    u8,
> {
    let old_table = data.subrange(tables.phoff as int, tables.phoff + 56 * tables.phnum);
    let own = phdr_bytes(PT_PHDR, layout.base, (56 * layout.phnum) as u64, 8);
    let load = phdr_bytes(
        PT_LOAD,
        layout.base,
        (layout.blob - layout.base + blob_len) as u64,
        layout.align,
    );
    match layout.phdr_index {
        Some(i) => overlay(old_table, 56 * i, own) + load,
        None => own + old_table + load,
    }
}

/// The section headers of the grown image: the name table's entry retargeted and a `symdb` entry
/// appended.
pub open spec fn elf_shdrs(data: Seq<u8>, tables: ElfTables, layout: ElfLayout, blob_len: int) -> Seq<
    u8,
> {
    let old_table = data.subrange(tables.shoff as int, tables.shoff + 64 * tables.shnum);
    overlay(
        old_table,
        64 * tables.shstrndx + 24,
        le64(layout.names) + le64((tables.names_len + 6) as u64),
    ) + le32(tables.names_len as u32) + le32(SHT_PROGBITS) + le64(SHF_ALLOC) + le64(layout.blob)
        + le64(layout.blob) + le64(blob_len as u64) + le32(0) + le32(0) + le64(16) + le64(0)
}

/// The image with its ELF header pointing at the new tables.
pub open spec fn elf_retargeted(data: Seq<u8>, tables: ElfTables, layout: ElfLayout) -> Seq<u8> {
    overlay(
        overlay(
            overlay(
                overlay(data, 32, le64(layout.base)),
                56,
                le16((layout.phnum as u64) as u16),
            ),
            40,
            le64(layout.shoff),
        ),
        60,
        le16((tables.shnum as u32 + 1) as u16),
    )
}

/// The grown file.
pub open spec fn elf_assembled(
    data: Seq<u8>,
    source: Seq<u8>,
    blob: Seq<u8>,
    tables: ElfTables,
    layout: ElfLayout,
) -> Seq<u8> {
    let names = source.subrange(tables.names as int, tables.names + tables.names_len)
        + SYMDB_ENTRY@;
    let front = resized(
        resized(elf_retargeted(data, tables, layout), layout.base as int) + elf_phdrs(
            source,
            tables,
            layout,
            blob.len() as int,
        ),
        layout.blob as int,
    );
    resized(front + blob + names, layout.shoff as int) + elf_shdrs(
        source,
        tables,
        layout,
        blob.len() as int,
    )
}

/// The image with the blob embedded.
pub open spec fn elf_embedded(data: Seq<u8>, blob: Seq<u8>) -> Result<Seq<u8>, EmbedError> {
    match elf_tables(data) {
        Err(e) => Err(e),
        Ok(tables) => match elf_descriptor(
            data,
            data.subrange(tables.names as int, tables.names + tables.names_len),
            tables.shoff as int,
            tables.shnum as int,
            None,
        ) {
            Err(e) => Err(e),
            Ok(None) => Err(EmbedError::NoDescriptor),
            Ok(Some(descriptor)) => match elf_layout(data, tables, blob.len() as int) {
                Err(e) => Err(e),
                Ok(layout) => match patched(
                    data,
                    descriptor as int,
                    layout.blob,
                    blob.len() as u64,
                ) {
                    Err(e) => Err(e),
                    Ok(out) => Ok(elf_assembled(out, data, blob, tables, layout)),
                },
            },
        },
    }
}

/// Whether the tables lie in the file.
pub(crate) open spec fn tables_lie(data: Seq<u8>, tables: ElfTables) -> bool {
    &&& 64 <= data.len()
    &&& tables.phoff + 56 * tables.phnum <= data.len()
    &&& tables.shoff + 64 * tables.shnum <= data.len()
    &&& tables.shstrndx < tables.shnum
    &&& tables.names + tables.names_len <= data.len()
}

/// Read where the tables are.
fn read_tables(data: &[u8]) -> (r: Result<ElfTables, EmbedError>)
    ensures
        r == elf_tables(data@),
        r matches Ok(tables) ==> tables_lie(data@, tables),
{
    assert(data.len() <= usize::MAX);
    if data.len() < 64 {
        return Err(EmbedError::TruncatedElfHeader);
    }
    let len: u64 = data.len() as u64;
    if data[4] != 2 || data[5] != 1 {
        return Err(EmbedError::NotElf64);
    }
    if get_u16(data, 54) != 56 || get_u16(data, 58) != 64 {
        return Err(EmbedError::ElfEntrySizes);
    }
    let phoff: u64 = get_u64(data, 32);
    let phnum: u16 = get_u16(data, 56);
    let shoff: u64 = get_u64(data, 40);
    let shnum: u16 = get_u16(data, 60);
    let shstrndx: u16 = get_u16(data, 62);
    if phnum == 0xffff || shnum == 0 {
        return Err(EmbedError::ElfExtendedCounts);
    }
    if phoff > len || 56 * (phnum as u64) > len - phoff {
        return Err(EmbedError::TruncatedProgramHeaders);
    }
    if shoff > len || 64 * (shnum as u64) > len - shoff {
        return Err(EmbedError::TruncatedSectionHeaders);
    }
    if shstrndx >= shnum {
        return Err(EmbedError::BadShstrndx);
    }
    let header: usize = shoff as usize + 64 * (shstrndx as usize);
    let names: u64 = get_u64(data, header + 24);
    let names_len: u64 = get_u64(data, header + 32);
    if names > len || names_len > len - names {
        return Err(EmbedError::TruncatedShstrtab);
    }
    Ok(
        ElfTables {
            phoff: phoff as usize,
            phnum,
            shoff: shoff as usize,
            shnum,
            shstrndx,
            names: names as usize,
            names_len: names_len as usize,
        },
    )
}

/// Whether the section name at `off` is `wanted`.
fn name_is(names: &[u8], off: u32, wanted: &[u8]) -> (r: bool)
    ensures
        r == (elf_name(names@, off as int) == wanted@),
{
    if off as u64 > names.len() as u64 {
        assert(wanted@.len() == 0 <==> wanted@ =~= Seq::<u8>::empty());
        return wanted.len() == 0;
    }
    let rest: &[u8] = &names[off as usize..names.len()];
    match find_zero(rest) {
        Some(end) => same_bytes(&rest[0..end], wanted),
        None => same_bytes(rest, wanted),
    }
}

/// Find the descriptor.
fn find_descriptor(data: &[u8], tables: &ElfTables) -> (r: Result<Option<u64>, EmbedError>)
    requires
        tables_lie(data@, *tables),
    ensures
        r == elf_descriptor(
            data@,
            data@.subrange(tables.names as int, tables.names + tables.names_len),
            tables.shoff as int,
            tables.shnum as int,
            None,
        ),
{
    assert(data.len() <= usize::MAX);
    let names: &[u8] = &data[tables.names..tables.names + tables.names_len];
    let mut found: Option<u64> = None;
    let mut i: u16 = 0;
    while i < tables.shnum
        invariant
            i <= tables.shnum,
            data@.len() <= usize::MAX,
            tables_lie(data@, *tables),
            names@ == data@.subrange(tables.names as int, tables.names + tables.names_len),
            elf_descriptor(data@, names@, tables.shoff + 64 * i, tables.shnum - i, found)
                == elf_descriptor(
                data@,
                names@,
                tables.shoff as int,
                tables.shnum as int,
                None,
            ),
        decreases tables.shnum - i,
    {
        let off: usize = tables.shoff + 64 * (i as usize);
        let name: u32 = get_u32(data, off);
        if name_is(names, name, &SYMDB_NAME) {
            return Err(EmbedError::AlreadyEmbedded);
        }
        if name_is(names, name, &SYMDBH_NAME) {
            if get_u64(data, off + 32) < 24 {
                return Err(EmbedError::DescriptorTooSmall);
            }
            found = Some(get_u64(data, off + 24));
        }
        i = i + 1;
    }
    Ok(found)
}

/// The alignment and the end of the loaded segments.
fn find_load_range(data: &[u8], tables: &ElfTables) -> (r: Result<LoadRange, EmbedError>)
    requires
        tables_lie(data@, *tables),
    ensures
        r == load_range(
            data@,
            tables.phoff as int,
            tables.phnum as int,
            LoadRange { align: 0x1000, end: 0 },
        ),
        r matches Ok(range) ==> range.align >= 0x1000,
{
    assert(data.len() <= usize::MAX);
    let mut found = LoadRange { align: 0x1000, end: 0 };
    let mut i: u16 = 0;
    while i < tables.phnum
        invariant
            i <= tables.phnum,
            data@.len() <= usize::MAX,
            tables_lie(data@, *tables),
            found.align >= 0x1000,
            load_range(data@, tables.phoff + 56 * i, tables.phnum - i, found) == load_range(
                data@,
                tables.phoff as int,
                tables.phnum as int,
                LoadRange { align: 0x1000, end: 0 },
            ),
        decreases tables.phnum - i,
    {
        let off: usize = tables.phoff + 56 * (i as usize);
        if get_u32(data, off) == PT_LOAD {
            let align: u64 = get_u64(data, off + 48);
            let end: u64 = match get_u64(data, off + 16).checked_add(get_u64(data, off + 40)) {
                Some(end) => end,
                None => return Err(EmbedError::Overflow),
            };
            found =
            LoadRange {
                align: if align > found.align {
                    align
                } else {
                    found.align
                },
                end: if end > found.end {
                    end
                } else {
                    found.end
                },
            };
        }
        i = i + 1;
    }
    Ok(found)
}

/// Find the program header that describes the table itself.
fn find_phdr(data: &[u8], tables: &ElfTables) -> (r: Option<u16>)
    requires
        tables_lie(data@, *tables),
    ensures
        match r {
            Some(i) => phdr_index(data@, tables.phoff as int, tables.phnum as int, 0) == Some(
                i as int,
            ) && i < tables.phnum,
            None => phdr_index(data@, tables.phoff as int, tables.phnum as int, 0) is None,
        },
{
    assert(data.len() <= usize::MAX);
    let mut i: u16 = 0;
    while i < tables.phnum
        invariant
            i <= tables.phnum,
            data@.len() <= usize::MAX,
            tables_lie(data@, *tables),
            phdr_index(data@, tables.phoff as int, tables.phnum as int, i as int) == phdr_index(
                data@,
                tables.phoff as int,
                tables.phnum as int,
                0,
            ),
        decreases tables.phnum - i,
    {
        if get_u32(data, tables.phoff + 56 * (i as usize)) == PT_PHDR {
            return Some(i);
        }
        i = i + 1;
    }
    None
}

/// Whether the parts of the grown image follow one another.
pub(crate) open spec fn layout_lies(data: Seq<u8>, tables: ElfTables, layout: ElfLayout, blob_len: int) -> bool {
    &&& data.len() <= layout.base
    &&& layout.base + 56 * layout.phnum <= layout.blob
    &&& layout.names == layout.blob + blob_len
    &&& layout.names + tables.names_len + 6 <= layout.shoff
    &&& layout.shoff + 64 * (tables.shnum + 1) <= usize::MAX
    &&& layout.phnum <= 0x1_0001
    &&& layout.phdr_index matches Some(i) ==> i < tables.phnum
}

/// Lay out the grown image.
fn make_layout(data: &[u8], tables: &ElfTables, blob_len: usize) -> (r: Result<
    ElfLayout,
    EmbedError,
>)
    requires
        tables_lie(data@, *tables),
    ensures
        r == elf_layout(data@, *tables, blob_len as int),
        r matches Ok(layout) ==> layout_lies(data@, *tables, layout, blob_len as int),
{
    assert(data.len() <= usize::MAX);
    let range: LoadRange = find_load_range(data, tables)?;
    let start: u64 = if data.len() as u64 > range.end {
        data.len() as u64
    } else {
        range.end
    };
    let index: Option<u16> = find_phdr(data, tables);
    let phnum: u64 = tables.phnum as u64 + 1 + if index.is_none() {
        1
    } else {
        0
    };
    proof {
        lemma_align_int(start as int, range.align as int);
        lemma_align_int(56 * phnum, 16);
        let blob = aligned_to(start as int, range.align as int) + aligned_to(56 * phnum, 16);
        lemma_align_int(blob + blob_len + tables.names_len + 6, 8);
    }
    let base: u64 = align_to(start, range.align)?;
    let room: u64 = align_to(56 * phnum, 16)?;
    let blob: u64 = match base.checked_add(room) {
        Some(v) => v,
        None => return Err(EmbedError::Overflow),
    };
    let names: u64 = match blob.checked_add(blob_len as u64) {
        Some(v) => v,
        None => return Err(EmbedError::Overflow),
    };
    let names_end: u64 = match names.checked_add(tables.names_len as u64) {
        Some(v) => match v.checked_add(6) {
            Some(v) => v,
            None => return Err(EmbedError::Overflow),
        },
        None => return Err(EmbedError::Overflow),
    };
    let shoff: u64 = align_to(names_end, 8)?;
    let end: u64 = match shoff.checked_add(64 * (tables.shnum as u64 + 1)) {
        Some(v) => v,
        None => return Err(EmbedError::Overflow),
    };
    if end > usize::MAX as u64 {
        return Err(EmbedError::Overflow);
    }
    Ok(
        ElfLayout {
            base,
            align: range.align,
            phdr_index: index,
            phnum,
            blob,
            names,
            shoff,
        },
    )
}

/// Append a program header.
pub(crate) fn push_phdr(out: &mut Vec<u8>, p_type: u32, offset: u64, size: u64, align: u64)
    ensures
        final(out)@ == old(out)@ + phdr_bytes(p_type, offset, size, align),
        phdr_bytes(p_type, offset, size, align).len() == 56,
{
    broadcast use group_field_len;

    push_u32(out, p_type);
    push_u32(out, PF_R);
    push_u64(out, offset);
    push_u64(out, offset);
    push_u64(out, offset);
    push_u64(out, size);
    push_u64(out, size);
    push_u64(out, align);
    assert(out@ =~= old(out)@ + phdr_bytes(p_type, offset, size, align));
}

/// The program headers of the grown image.
fn make_phdrs(data: &[u8], tables: &ElfTables, layout: &ElfLayout, blob_len: usize) -> (out: Vec<
    u8,
>)
    requires
        tables_lie(data@, *tables),
        layout_lies(data@, *tables, *layout, blob_len as int),
    ensures
        out@ == elf_phdrs(data@, *tables, *layout, blob_len as int),
{
    assert(data.len() <= usize::MAX);
    let own_size: u64 = 56 * layout.phnum;
    let seg_size: u64 = layout.blob - layout.base + blob_len as u64;
    let old_table: &[u8] = &data[tables.phoff..tables.phoff + 56 * (tables.phnum as usize)];
    let mut own: Vec<u8> = Vec::new();
    push_phdr(&mut own, PT_PHDR, layout.base, own_size, 8);
    assert(own@ =~= phdr_bytes(PT_PHDR, layout.base, own_size, 8));
    let mut out: Vec<u8> = match layout.phdr_index {
        Some(i) => {
            let mut table: Vec<u8> = copy_bytes(old_table);
            put_bytes(&mut table, 56 * (i as usize), &own);
            table
        },
        None => {
            push_bytes(&mut own, old_table);
            own
        },
    };
    push_phdr(&mut out, PT_LOAD, layout.base, seg_size, layout.align);
    out
}

/// The section headers of the grown image.
fn make_shdrs(data: &[u8], tables: &ElfTables, layout: &ElfLayout, blob_len: usize) -> (out: Vec<
    u8,
>)
    requires
        tables_lie(data@, *tables),
        layout_lies(data@, *tables, *layout, blob_len as int),
    ensures
        out@ == elf_shdrs(data@, *tables, *layout, blob_len as int),
{
    broadcast use group_field_len;

    assert(data.len() <= usize::MAX);
    let old_table: &[u8] = &data[tables.shoff..tables.shoff + 64 * (tables.shnum as usize)];
    let mut out: Vec<u8> = copy_bytes(old_table);
    let at: usize = 64 * (tables.shstrndx as usize) + 24;
    let new_len: u64 = tables.names_len as u64 + 6;
    put_u64(&mut out, at, layout.names);
    put_u64(&mut out, at + 8, new_len);
    assert(out@ =~= overlay(old_table@, at as int, le64(layout.names) + le64(new_len)));
    push_u32(&mut out, tables.names_len as u32);
    push_u32(&mut out, SHT_PROGBITS);
    push_u64(&mut out, SHF_ALLOC);
    push_u64(&mut out, layout.blob);
    push_u64(&mut out, layout.blob);
    push_u64(&mut out, blob_len as u64);
    push_u32(&mut out, 0);
    push_u32(&mut out, 0);
    push_u64(&mut out, 16);
    push_u64(&mut out, 0);
    out
}

/// ELF: append a read-only PT_LOAD at EOF holding the relocated program-header table and
/// the blob. The phdr table cannot grow in place, and loaders (bionic in particular) expect
/// it to be covered by a PT_LOAD, so it moves into the new segment — with `p_vaddr ==
/// p_offset` so a loader that computes `bias + e_phoff` still lands on it. A PT_PHDR entry
/// is updated (or added, for images without one) to point at the moved table.
pub fn elf_embed(data: Vec<u8>, blob: &[u8]) -> (r: Result<Vec<u8>, EmbedError>)
    ensures
        match r {
            Ok(out) => elf_embedded(data@, blob@) == Ok::<Seq<u8>, EmbedError>(out@),
            Err(e) => elf_embedded(data@, blob@) == Err::<Seq<u8>, EmbedError>(e),
        },
{
    broadcast use group_field_len;

    assert(data.len() <= usize::MAX);
    let tables: ElfTables = read_tables(&data)?;
    let descriptor: u64 = match find_descriptor(&data, &tables)? {
        Some(descriptor) => descriptor,
        None => return Err(EmbedError::NoDescriptor),
    };
    let layout: ElfLayout = make_layout(&data, &tables, blob.len())?;
    let phdrs: Vec<u8> = make_phdrs(&data, &tables, &layout, blob.len());
    let shdrs: Vec<u8> = make_shdrs(&data, &tables, &layout, blob.len());
    let mut names: Vec<u8> = copy_bytes(&data[tables.names..tables.names + tables.names_len]);
    push_bytes(&mut names, &SYMDB_ENTRY);

    let mut out: Vec<u8> = data;
    patch_descriptor(&mut out, descriptor, layout.blob, blob.len() as u64)?;
    put_u64(&mut out, 32, layout.base);
    put_u16(&mut out, 56, layout.phnum as u16);
    put_u64(&mut out, 40, layout.shoff);
    put_u16(&mut out, 60, (tables.shnum as u32 + 1) as u16);

    resize_zero(&mut out, layout.base as usize);
    push_bytes(&mut out, &phdrs);
    resize_zero(&mut out, layout.blob as usize);
    push_bytes(&mut out, blob);
    push_bytes(&mut out, &names);
    resize_zero(&mut out, layout.shoff as usize);
    push_bytes(&mut out, &shdrs);
    Ok(out)
}

/// How long the program headers of the grown image are.
pub(crate) proof fn lemma_phdrs_len(data: Seq<u8>, tables: ElfTables, layout: ElfLayout, blob_len: int)
    requires
        tables_lie(data, tables),
        layout.phdr_index matches Some(i) ==> i < tables.phnum,
        layout.phnum == tables.phnum + 1 + (if layout.phdr_index is None {
            1int
        } else {
            0
        }),
    ensures
        elf_phdrs(data, tables, layout, blob_len).len() == 56 * layout.phnum,
{
    broadcast use group_field_len;

}

pub(crate) proof fn lemma_phdr_index(data: Seq<u8>, phoff: int, phnum: int, from: int)
    requires
        0 <= from,
    ensures
        phdr_index(data, phoff, phnum, from) matches Some(i) ==> from <= i < phnum,
    decreases phnum - from,
{
    if from < phnum && u32_at(data, phoff + 56 * from) != PT_PHDR {
        lemma_phdr_index(data, phoff, phnum, from + 1);
    }
}

pub(crate) proof fn lemma_load_range(data: Seq<u8>, off: int, n: int, found: LoadRange)
    requires
        found.align >= 0x1000,
    ensures
        load_range(data, off, n, found) matches Ok(range) ==> range.align >= 0x1000,
    decreases n,
{
    if n > 0 {
        let align = u64_at(data, off + 48);
        let end = u64_at(data, off + 16) + u64_at(data, off + 40);
        if u32_at(data, off) != PT_LOAD {
            lemma_load_range(data, off + 56, n - 1, found);
        } else if end <= u64::MAX {
            lemma_load_range(
                data,
                off + 56,
                n - 1,
                LoadRange {
                    align: if align > found.align {
                        align
                    } else {
                        found.align
                    },
                    end: if end > found.end {
                        end as u64
                    } else {
                        found.end
                    },
                },
            );
        }
    }
}

/// What the grown file keeps of the image, and where it holds the blob.
pub(crate) proof fn lemma_assembled(
    data: Seq<u8>,
    source: Seq<u8>,
    blob: Seq<u8>,
    tables: ElfTables,
    layout: ElfLayout,
)
    requires
        tables_lie(source, tables),
        data.len() == source.len(),
        layout_lies(source, tables, layout, blob.len() as int),
        layout.phnum == tables.phnum + 1 + (if layout.phdr_index is None {
            1int
        } else {
            0
        }),
    ensures
        ({
            let out = elf_assembled(data, source, blob, tables, layout);
            &&& layout.blob + blob.len() <= out.len()
            &&& out.subrange(layout.blob as int, layout.blob + blob.len()) == blob
            &&& data.len() <= out.len()
            &&& forall|i: int| 62 <= i < data.len() ==> out[i] == data[i]
        }),
{
    broadcast use group_field_len;

    let r = elf_retargeted(data, tables, layout);
    let phdrs = elf_phdrs(source, tables, layout, blob.len() as int);
    let shdrs = elf_shdrs(source, tables, layout, blob.len() as int);
    let names = source.subrange(tables.names as int, tables.names + tables.names_len)
        + SYMDB_ENTRY@;
    lemma_phdrs_len(source, tables, layout, blob.len() as int);
    let base = resized(r, layout.base as int);
    assert(forall|i: int| 62 <= i < data.len() ==> r[i] == data[i]);
    assert(base.len() == layout.base);
    let front = resized(base + phdrs, layout.blob as int);
    assert(front.len() == layout.blob);
    assert(forall|i: int| 62 <= i < data.len() ==> front[i] == data[i]);
    let middle = resized(front + blob + names, layout.shoff as int);
    assert(middle.len() == layout.shoff);
    assert(forall|i: int| 62 <= i < data.len() ==> middle[i] == data[i]);
    assert(middle.subrange(layout.blob as int, layout.blob + blob.len()) =~= blob);
    let out = middle + shdrs;
    assert(out.subrange(layout.blob as int, layout.blob + blob.len()) =~= middle.subrange(
        layout.blob as int,
        layout.blob + blob.len(),
    ));
}

/// What an image that was accepted is embedded with.
pub open spec fn elf_parts(data: Seq<u8>, blob: Seq<u8>) -> (ElfTables, int, ElfLayout) {
    let tables = elf_tables(data)->Ok_0;
    let descriptor = elf_descriptor(
        data,
        data.subrange(tables.names as int, tables.names + tables.names_len),
        tables.shoff as int,
        tables.shnum as int,
        None,
    )->Ok_0->0;
    (tables, descriptor as int, elf_layout(data, tables, blob.len() as int)->Ok_0)
}

/// The blob stands in the new file where the descriptor says, and the address and the size that the
/// descriptor holds are those of the blob.
///
/// A descriptor inside the ELF header itself is left out: the header's own fields are rewritten.
pub proof fn law_elf_descriptor_finds_blob(data: Seq<u8>, blob: Seq<u8>)
    requires
        data.len() <= usize::MAX,
        elf_embedded(data, blob).is_ok(),
        64 <= elf_parts(data, blob).1,
    ensures
        ({
            let out = elf_embedded(data, blob)->Ok_0;
            let descriptor = elf_parts(data, blob).1;
            let at = u64_at(out, descriptor + 8);
            &&& u64_at(out, descriptor + 16) == blob.len()
            &&& at + blob.len() <= out.len()
            &&& out.subrange(at as int, at + blob.len()) == blob
        }),
{
    broadcast use group_field_len;

    let out = elf_embedded(data, blob)->Ok_0;
    let (tables, descriptor, layout) = elf_parts(data, blob);
    let range = load_range(
        data,
        tables.phoff as int,
        tables.phnum as int,
        LoadRange { align: 0x1000, end: 0 },
    )->Ok_0;
    lemma_load_range(
        data,
        tables.phoff as int,
        tables.phnum as int,
        LoadRange { align: 0x1000, end: 0 },
    );
    lemma_phdr_index(data, tables.phoff as int, tables.phnum as int, 0);
    let start = if data.len() > range.end {
        data.len() as int
    } else {
        range.end as int
    };
    lemma_align_int(start, range.align as int);
    lemma_align_int(56 * layout.phnum, 16);
    lemma_align_int(layout.names + tables.names_len + 6, 8);
    assert(layout_lies(data, tables, layout, blob.len() as int));
    let p = patched(data, descriptor, layout.blob, blob.len() as u64)->Ok_0;
    law_descriptor_is_patched_once(data, descriptor, layout.blob, blob.len() as u64, 0, 0);
    lemma_assembled(p, data, blob, tables, layout);
    assert(out.subrange(descriptor + 8, descriptor + 16) =~= p.subrange(
        descriptor + 8,
        descriptor + 16,
    ));
    lemma_u64_at_same(out, descriptor + 8, p, descriptor + 8);
    assert(out.subrange(descriptor + 16, descriptor + 24) =~= p.subrange(
        descriptor + 16,
        descriptor + 24,
    ));
    lemma_u64_at_same(out, descriptor + 16, p, descriptor + 16);
}

} // verus!
