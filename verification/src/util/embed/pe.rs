//! Embedding into PE images.

use vstd::prelude::*;
use crate::bytes::{
    all_zero, get_u16, get_u32, group_field_len, is_all_zero, le16, le32, le64, lemma_align_int,
    lemma_overlay_apart, lemma_overlay_same, lemma_u32_at_le, lemma_u64_at_le, overlay, push_bytes,
    push_u16, push_u32, put_bytes, put_u16, put_u32, resize_zero, resized, same_bytes, u16_at, u32_at,
    u64_at, zeros,
};
use super::descriptor::{align_to, aligned_to, patch_descriptor, patched, EmbedError};

verus! {

/// The section name `.symdb`.
pub const SYMDB_NAME: [u8; 8] = [0x2e, 0x73, 0x79, 0x6d, 0x64, 0x62, 0, 0];

/// The section name `.symdbh`.
pub const SYMDBH_NAME: [u8; 8] = [0x2e, 0x73, 0x79, 0x6d, 0x64, 0x62, 0x68, 0];

/// Initialized, readable data.
pub const SECTION_CHARACTERISTICS: u32 = 0x4000_0040;

/// What the headers of a PE32+ image say.
#[derive(Clone, Copy, Debug, PartialEq, Eq, Structural)]
pub struct PeHeaders {
    /// Offset of the NT headers.
    pub nt: usize,
    pub section_count: u16,
    pub file_align: u32,
    pub section_align: u32,
    pub size_of_headers: u32,
    pub directory_count: u32,
    /// Offset of the section table.
    pub table: usize,
}

/// The headers of an image, or why it is refused.
pub open spec fn pe_headers(data: Seq<u8>) -> Result<PeHeaders, EmbedError> {
    let len = data.len() as int;
    let nt = u32_at(data, 60) as int;
    let directories = u32_at(data, nt + 132) as int;
    let sections = u16_at(data, nt + 6) as int;
    let table = nt + 24 + u16_at(data, nt + 20);
    if len < 64 {
        Err(EmbedError::TruncatedDosHeader)
    } else if nt > len {
        Err(EmbedError::BadLfanew)
    } else if nt + 136 > len {
        Err(EmbedError::TruncatedNtHeaders)
    } else if u32_at(data, nt) != 0x4550 {
        Err(EmbedError::BadPeSignature)
    } else if u16_at(data, nt + 24) != 0x20b {
        Err(EmbedError::NotPe32Plus)
    } else if nt + 136 + 8 * directories > len {
        Err(EmbedError::TruncatedDirectories)
    } else if directories > 4 && u32_at(data, nt + 136 + 8 * 4 + 4) != 0 {
        Err(EmbedError::Signed)
    } else if table + 40 * sections > len {
        Err(EmbedError::TruncatedSectionTable)
    } else {
        Ok(
            PeHeaders {
                nt: nt as usize,
                section_count: sections as u16,
                file_align: u32_at(data, nt + 60),
                section_align: u32_at(data, nt + 56),
                size_of_headers: u32_at(data, nt + 84),
                directory_count: directories as u32,
                table: table as usize,
            },
        )
    }
}

/// What the section table says: where the descriptor is, and where the sections end in memory.
#[derive(Clone, Copy, Debug, PartialEq, Eq, Structural)]
pub struct PeSections {
    pub descriptor: Option<u32>,
    pub end: u64,
}

/// What the `n` sections from `off` on add to `found`, or why one is refused.
pub open spec fn pe_sections(data: Seq<u8>, off: int, n: int, found: PeSections) -> Result<
    PeSections,
    EmbedError,
>
    decreases n,
{
    let name = data.subrange(off, off + 8);
    let end = u32_at(data, off + 12) + u32_at(data, off + 8);
    let reached = if end > found.end {
        end as u64
    } else {
        found.end
    };
    if n <= 0 {
        Ok(found)
    } else if name == SYMDB_NAME@ {
        Err(EmbedError::AlreadyEmbedded)
    } else if name == SYMDBH_NAME@ {
        if u32_at(data, off + 8) < 24 || u32_at(data, off + 16) < 24 {
            Err(EmbedError::DescriptorTooSmall)
        } else {
            pe_sections(
                data,
                off + 40,
                n - 1,
                PeSections { descriptor: Some(u32_at(data, off + 20)), end: reached },
            )
        }
    } else {
        pe_sections(data, off + 40, n - 1, PeSections { end: reached, ..found })
    }
}

/// The table entry of the new section.
pub open spec fn pe_section_entry(
    blob_len: int,
    virtual_address: u64,
    raw_size: u64,
    raw_offset: u64,
) -> Seq<u8> {
    SYMDB_NAME@ + le32(blob_len as u32) + le32(virtual_address as u32) + le32(raw_size as u32)
        + le32(raw_offset as u32) + le32(0) + le32(0) + le16(0) + le16(0) + le32(
        SECTION_CHARACTERISTICS,
    )
}

/// The image with the blob as its last section, once there is room for a table entry.
pub open spec fn pe_with_section(
    data: Seq<u8>,
    blob: Seq<u8>,
    headers: PeHeaders,
    sections: PeSections,
) -> Result<Seq<u8>, EmbedError> {
    let entry = headers.table + 40 * headers.section_count;
    let va = aligned_to(sections.end as int, headers.section_align as int);
    let raw_offset = aligned_to(data.len() as int, headers.file_align as int);
    let raw_size = aligned_to(blob.len() as int, headers.file_align as int);
    let image_end = aligned_to(va + blob.len(), headers.section_align as int);
    if entry + 40 > data.len() {
        Err(EmbedError::HeadersOutsideFile)
    } else if !all_zero(data.subrange(entry, entry + 40)) {
        Err(EmbedError::NoPadding)
    } else if va > u64::MAX || image_end > u64::MAX || raw_offset + raw_size > u64::MAX
        || raw_offset + raw_size > usize::MAX {
        Err(EmbedError::Overflow)
    } else {
        match sections.descriptor {
            None => Err(EmbedError::NoDescriptor),
            Some(descriptor) => match patched(
                data,
                descriptor as int,
                va as u64,
                blob.len() as u64,
            ) {
                Err(e) => Err(e),
                Ok(d1) => {
                    let d2 = overlay(
                        d1,
                        entry,
                        pe_section_entry(
                            blob.len() as int,
                            va as u64,
                            raw_size as u64,
                            raw_offset as u64,
                        ),
                    );
                    let d3 = overlay(d2, headers.nt + 6, le16((headers.section_count + 1) as u16));
                    let d4 = overlay(d3, headers.nt + 80, le32((image_end as u64) as u32));
                    let d5 = overlay(d4, headers.nt + 88, le32(0));
                    Ok(resized(resized(d5, raw_offset) + blob, raw_offset + raw_size))
                },
            },
        }
    }
}

/// The bytes with the non-zero file offsets of `n` records shifted by `grow`: records of `stride`
/// bytes from `base` on, each with its file offset at `field`.
pub open spec fn shifted_pointers(
    data: Seq<u8>,
    base: int,
    stride: int,
    field: int,
    n: int,
    grow: int,
) -> Result<Seq<u8>, EmbedError>
    decreases n,
{
    let at = base + field;
    let pointer = u32_at(data, at);
    if n <= 0 {
        Ok(data)
    } else if pointer == 0 {
        shifted_pointers(data, base + stride, stride, field, n - 1, grow)
    } else if pointer + grow > u32::MAX {
        Err(EmbedError::Overflow)
    } else {
        shifted_pointers(
            overlay(data, at, le32((pointer + grow) as u32)),
            base + stride,
            stride,
            field,
            n - 1,
            grow,
        )
    }
}

/// The file offset of `rva` by the first of the `n` sections from `off` on that holds it.
pub open spec fn rva_to_file(data: Seq<u8>, off: int, n: int, rva: int) -> Option<int>
    decreases n,
{
    let va = u32_at(data, off + 12) as int;
    if n <= 0 {
        None
    } else if va <= rva && rva - va < u32_at(data, off + 16) {
        Some(rva - va + u32_at(data, off + 20))
    } else {
        rva_to_file(data, off + 40, n - 1, rva)
    }
}

/// The image with the file offsets of its debug directory shifted. The directory lies in section
/// data and is found through the section table.
pub open spec fn shifted_debug(data: Seq<u8>, headers: PeHeaders, grow: int) -> Result<
    Seq<u8>,
    EmbedError,
> {
    let directory = headers.nt + 136 + 8 * 6;
    let size = u32_at(data, directory + 4) as int;
    let count = size / 28;
    if headers.directory_count <= 6 || size == 0 {
        Ok(data)
    } else {
        match rva_to_file(
            data,
            headers.table as int,
            headers.section_count as int,
            u32_at(data, directory) as int,
        ) {
            None => Err(EmbedError::DebugNotInSection),
            Some(off) => if off + 28 * count > data.len() {
                Err(EmbedError::TruncatedDebugDirectory)
            } else {
                shifted_pointers(data, off, 28, 24, count, grow)
            },
        }
    }
}

/// The image with its header block grown so that it reaches `needed`.
pub open spec fn pe_grown(data: Seq<u8>, headers: PeHeaders, needed: int) -> Result<
    Seq<u8>,
    EmbedError,
> {
    let old_size = headers.size_of_headers as int;
    let grow = aligned_to(needed - old_size, headers.file_align as int);
    let symtab = u32_at(data, headers.nt + 12);
    if old_size > data.len() {
        Err(EmbedError::HeadersOutsideFile)
    } else if old_size + grow > u32::MAX || data.len() + grow > usize::MAX || symtab + grow
        > u32::MAX {
        Err(EmbedError::Overflow)
    } else {
        let d1 = overlay(data, headers.nt + 84, le32((old_size + grow) as u32));
        let d2 = if symtab != 0 {
            overlay(d1, headers.nt + 12, le32((symtab + grow) as u32))
        } else {
            d1
        };
        match shifted_debug(d2, headers, grow) {
            Err(e) => Err(e),
            Ok(d3) => match shifted_pointers(
                d3,
                headers.table as int,
                40,
                20,
                headers.section_count as int,
                grow,
            ) {
                Err(e) => Err(e),
                Ok(d4) => Ok(
                    d4.subrange(0, old_size) + zeros(grow) + d4.subrange(
                        old_size,
                        d4.len() as int,
                    ),
                ),
            },
        }
    }
}

proof fn lemma_shifted_len(
    data: Seq<u8>,
    base: int,
    stride: int,
    field: int,
    n: int,
    grow: int,
)
    ensures
        shifted_pointers(data, base, stride, field, n, grow) matches Ok(out) ==> out.len()
            == data.len(),
    decreases n,
{
    if n > 0 {
        let at = base + field;
        let pointer = u32_at(data, at);
        lemma_shifted_len(data, base + stride, stride, field, n - 1, grow);
        lemma_shifted_len(
            overlay(data, at, le32((pointer + grow) as u32)),
            base + stride,
            stride,
            field,
            n - 1,
            grow,
        );
    }
}

/// An image whose header block was grown is longer than before.
proof fn lemma_grown_len(data: Seq<u8>, headers: PeHeaders, needed: int)
    requires
        headers.size_of_headers < needed,
    ensures
        pe_grown(data, headers, needed) matches Ok(out) ==> data.len() < out.len() <= usize::MAX,
{
    let old_size = headers.size_of_headers as int;
    let align = if headers.file_align < 1 {
        1
    } else {
        headers.file_align as int
    };
    lemma_align_int(needed - old_size, align);
    let grow = aligned_to(needed - old_size, headers.file_align as int);
    let symtab = u32_at(data, headers.nt + 12);
    let d1 = overlay(data, headers.nt + 84, le32((old_size + grow) as u32));
    let d2 = if symtab != 0 {
        overlay(d1, headers.nt + 12, le32((symtab + grow) as u32))
    } else {
        d1
    };
    let directory = headers.nt + 136 + 8 * 6;
    let count = u32_at(d2, directory + 4) as int / 28;
    if let Some(off) = rva_to_file(
        d2,
        headers.table as int,
        headers.section_count as int,
        u32_at(d2, directory) as int,
    ) {
        lemma_shifted_len(d2, off, 28, 24, count, grow);
    }
    if let Ok(d3) = shifted_debug(d2, headers, grow) {
        lemma_shifted_len(
            d3,
            headers.table as int,
            40,
            20,
            headers.section_count as int,
            grow,
        );
    }
}

/// The image with the blob embedded. Where the header block has no room for another table entry it
/// is grown first.
pub open spec fn pe_embedded(data: Seq<u8>, blob: Seq<u8>) -> Result<Seq<u8>, EmbedError>
    decreases usize::MAX - data.len(),
    via pe_embedded_shrinks
{
    match pe_headers(data) {
        Err(e) => Err(e),
        Ok(headers) => match pe_sections(
            data,
            headers.table as int,
            headers.section_count as int,
            PeSections { descriptor: None, end: 0 },
        ) {
            Err(e) => Err(e),
            Ok(sections) => {
                let entry_end = headers.table + 40 * headers.section_count + 40;
                if sections.descriptor is None {
                    Err(EmbedError::NoDescriptor)
                } else if entry_end <= headers.size_of_headers {
                    pe_with_section(data, blob, headers, sections)
                } else {
                    match pe_grown(data, headers, entry_end) {
                        Err(e) => Err(e),
                        Ok(grown) => pe_embedded(grown, blob),
                    }
                }
            },
        },
    }
}

#[via_fn]
proof fn pe_embedded_shrinks(data: Seq<u8>, blob: Seq<u8>) {
    if let Ok(headers) = pe_headers(data) {
        let entry_end = headers.table + 40 * headers.section_count + 40;
        if headers.size_of_headers < entry_end {
            lemma_grown_len(data, headers, entry_end);
        }
    }
}

/// Whether the headers and the section table lie in the file.
spec fn headers_lie(data: Seq<u8>, headers: PeHeaders) -> bool {
    &&& headers.nt + 136 + 8 * headers.directory_count <= data.len()
    &&& headers.table + 40 * headers.section_count <= data.len()
    &&& headers.table <= u32::MAX + 0x1_0020
}

/// Read the headers of an image.
fn read_headers(data: &[u8]) -> (r: Result<PeHeaders, EmbedError>)
    ensures
        r == pe_headers(data@),
        r matches Ok(headers) ==> headers_lie(data@, headers),
{
    assert(data.len() <= usize::MAX);
    let len: u64 = data.len() as u64;
    if len < 64 {
        return Err(EmbedError::TruncatedDosHeader);
    }
    let nt_wide: u64 = get_u32(data, 60) as u64;
    if nt_wide > len {
        return Err(EmbedError::BadLfanew);
    }
    if len - nt_wide < 136 {
        return Err(EmbedError::TruncatedNtHeaders);
    }
    let nt: usize = nt_wide as usize;
    if get_u32(data, nt) != 0x4550 {
        return Err(EmbedError::BadPeSignature);
    }
    if get_u16(data, nt + 24) != 0x20b {
        return Err(EmbedError::NotPe32Plus);
    }
    let section_count: u16 = get_u16(data, nt + 6);
    let optional_size: u16 = get_u16(data, nt + 20);
    let directory_count: u32 = get_u32(data, nt + 132);
    if nt_wide + 136 + 8 * (directory_count as u64) > len {
        return Err(EmbedError::TruncatedDirectories);
    }
    // An Authenticode signature is an appendix at EOF; appending a section would corrupt it.
    if directory_count > 4 && get_u32(data, nt + 172) != 0 {
        return Err(EmbedError::Signed);
    }
    let table_wide: u64 = nt_wide + 24 + optional_size as u64;
    if table_wide + 40 * (section_count as u64) > len {
        return Err(EmbedError::TruncatedSectionTable);
    }
    Ok(
        PeHeaders {
            nt,
            section_count,
            file_align: get_u32(data, nt + 60),
            section_align: get_u32(data, nt + 56),
            size_of_headers: get_u32(data, nt + 84),
            directory_count,
            table: table_wide as usize,
        },
    )
}

/// Read the section table.
fn read_sections(data: &[u8], table: usize, count: u16) -> (r: Result<PeSections, EmbedError>)
    requires
        table + 40 * count <= data@.len(),
    ensures
        r == pe_sections(
            data@,
            table as int,
            count as int,
            PeSections { descriptor: None, end: 0 },
        ),
        r matches Ok(sections) ==> sections.end <= 0x2_0000_0000,
{
    assert(data.len() <= usize::MAX);
    let mut found = PeSections { descriptor: None, end: 0 };
    let mut i: u16 = 0;
    while i < count
        invariant
            i <= count,
            table + 40 * count <= data@.len() <= usize::MAX,
            found.end <= 0x2_0000_0000,
            pe_sections(data@, table + 40 * i, count - i, found) == pe_sections(
                data@,
                table as int,
                count as int,
                PeSections { descriptor: None, end: 0 },
            ),
        decreases count - i,
    {
        let off: usize = table + 40 * (i as usize);
        let name: &[u8] = &data[off..off + 8];
        if same_bytes(name, &SYMDB_NAME) {
            return Err(EmbedError::AlreadyEmbedded);
        }
        let virtual_size: u32 = get_u32(data, off + 8);
        let end: u64 = get_u32(data, off + 12) as u64 + virtual_size as u64;
        let reached: u64 = if end > found.end {
            end
        } else {
            found.end
        };
        if same_bytes(name, &SYMDBH_NAME) {
            if virtual_size < 24 || get_u32(data, off + 16) < 24 {
                return Err(EmbedError::DescriptorTooSmall);
            }
            found = PeSections { descriptor: Some(get_u32(data, off + 20)), end: reached };
        } else {
            found = PeSections { descriptor: found.descriptor, end: reached };
        }
        i = i + 1;
    }
    Ok(found)
}

/// Append the section, once there is room for a table entry.
fn add_section(data: Vec<u8>, blob: &[u8], headers: &PeHeaders, sections: &PeSections) -> (r: Result<
    Vec<u8>,
    EmbedError,
>)
    requires
        headers_lie(data@, *headers),
        sections.end <= 0x2_0000_0000,
        sections.descriptor is Some,
    ensures
        match r {
            Ok(out) => pe_with_section(data@, blob@, *headers, *sections) == Ok::<
                Seq<u8>,
                EmbedError,
            >(out@),
            Err(e) => pe_with_section(data@, blob@, *headers, *sections) == Err::<
                Seq<u8>,
                EmbedError,
            >(e),
        },
{
    broadcast use group_field_len;

    assert(data.len() <= usize::MAX);
    proof {
        lemma_align_int(
            data@.len() as int,
            if headers.file_align < 1 {
                1
            } else {
                headers.file_align as int
            },
        );
        lemma_align_int(
            blob@.len() as int,
            if headers.file_align < 1 {
                1
            } else {
                headers.file_align as int
            },
        );
    }
    let entry: usize = headers.table + 40 * (headers.section_count as usize);
    if data.len() - entry < 40 {
        return Err(EmbedError::HeadersOutsideFile);
    }
    if !is_all_zero(&data[entry..entry + 40]) {
        return Err(EmbedError::NoPadding);
    }
    let virtual_address: u64 = align_to(sections.end, headers.section_align as u64)?;
    let blob_end: u64 = match virtual_address.checked_add(blob.len() as u64) {
        Some(end) => end,
        None => {
            proof {
                let align = if headers.section_align < 1 {
                    1
                } else {
                    headers.section_align as int
                };
                lemma_align_int(virtual_address + blob@.len(), align);
            }
            return Err(EmbedError::Overflow);
        },
    };
    let image_end: u64 = align_to(blob_end, headers.section_align as u64)?;
    let raw_offset: u64 = align_to(data.len() as u64, headers.file_align as u64)?;
    let raw_size: u64 = align_to(blob.len() as u64, headers.file_align as u64)?;
    let raw_end: u64 = match raw_offset.checked_add(raw_size) {
        Some(end) => end,
        None => return Err(EmbedError::Overflow),
    };
    if raw_end > usize::MAX as u64 {
        return Err(EmbedError::Overflow);
    }
    let descriptor: u32 = match sections.descriptor {
        Some(descriptor) => descriptor,
        None => return Err(EmbedError::NoDescriptor),
    };
    let mut out: Vec<u8> = data;
    patch_descriptor(&mut out, descriptor as u64, virtual_address, blob.len() as u64)?;
    let mut header: Vec<u8> = Vec::with_capacity(40);
    push_bytes(&mut header, &SYMDB_NAME);
    push_u32(&mut header, blob.len() as u32);
    push_u32(&mut header, virtual_address as u32);
    push_u32(&mut header, raw_size as u32);
    push_u32(&mut header, raw_offset as u32);
    push_u32(&mut header, 0);
    push_u32(&mut header, 0);
    push_u16(&mut header, 0);
    push_u16(&mut header, 0);
    push_u32(&mut header, SECTION_CHARACTERISTICS);
    assert(header@ =~= pe_section_entry(
        blob@.len() as int,
        virtual_address,
        raw_size,
        raw_offset,
    ));
    put_bytes(&mut out, entry, &header);
    put_u16(&mut out, headers.nt + 6, (headers.section_count as u32 + 1) as u16);
    put_u32(&mut out, headers.nt + 80, image_end as u32);
    put_u32(&mut out, headers.nt + 88, 0);
    resize_zero(&mut out, raw_offset as usize);
    push_bytes(&mut out, blob);
    resize_zero(&mut out, raw_end as usize);
    Ok(out)
}

/// Shift the file offsets of `n` records.
fn shift_pointers(
    data: &mut Vec<u8>,
    base: usize,
    stride: usize,
    field: usize,
    n: usize,
    grow: u32,
) -> (r: Result<(), EmbedError>)
    requires
        base + stride * n <= old(data)@.len(),
        field + 4 <= stride <= 64,
    ensures
        match r {
            Ok(_) => shifted_pointers(
                old(data)@,
                base as int,
                stride as int,
                field as int,
                n as int,
                grow as int,
            ) == Ok::<Seq<u8>, EmbedError>(final(data)@) && final(data)@.len() == old(data)@.len(),
            Err(e) => shifted_pointers(
                old(data)@,
                base as int,
                stride as int,
                field as int,
                n as int,
                grow as int,
            ) == Err::<Seq<u8>, EmbedError>(e),
        },
{
    let ghost before = data@;
    let mut at: usize = base;
    let mut left: usize = n;
    while left > 0
        invariant
            before == old(data)@,
            data@.len() == before.len(),
            at + stride * left <= before.len(),
            field + 4 <= stride <= 64,
            shifted_pointers(
                data@,
                at as int,
                stride as int,
                field as int,
                left as int,
                grow as int,
            ) == shifted_pointers(
                before,
                base as int,
                stride as int,
                field as int,
                n as int,
                grow as int,
            ),
        decreases left,
    {
        broadcast use group_field_len;

        assert(stride * left == stride * (left - 1) + stride) by (nonlinear_arith)
            requires
                left > 0,
        ;
        assert(stride * (left - 1) >= 0) by (nonlinear_arith)
            requires
                left > 0,
                stride >= 0,
        ;
        assert(data.len() <= usize::MAX);
        let pointer: u32 = get_u32(data, at + field);
        if pointer != 0 {
            match pointer.checked_add(grow) {
                Some(moved) => put_u32(data, at + field, moved),
                None => return Err(EmbedError::Overflow),
            }
        }
        at = at + stride;
        left = left - 1;
    }
    Ok(())
}

/// The file offset of `rva`.
fn find_rva(data: &[u8], table: usize, count: u16, rva: u32) -> (r: Option<u64>)
    requires
        table + 40 * count <= data@.len(),
    ensures
        match r {
            Some(off) => rva_to_file(data@, table as int, count as int, rva as int) == Some(
                off as int,
            ),
            None => rva_to_file(data@, table as int, count as int, rva as int) is None,
        },
{
    assert(data.len() <= usize::MAX);
    let mut i: u16 = 0;
    while i < count
        invariant
            i <= count,
            table + 40 * count <= data@.len() <= usize::MAX,
            rva_to_file(data@, table + 40 * i, count - i, rva as int) == rva_to_file(
                data@,
                table as int,
                count as int,
                rva as int,
            ),
        decreases count - i,
    {
        let off: usize = table + 40 * (i as usize);
        let va: u32 = get_u32(data, off + 12);
        if va <= rva && rva - va < get_u32(data, off + 16) {
            return Some((rva - va) as u64 + get_u32(data, off + 20) as u64);
        }
        i = i + 1;
    }
    None
}

/// Shift the file offsets of the debug directory.
fn shift_debug(data: &mut Vec<u8>, headers: &PeHeaders, grow: u32) -> (r: Result<(), EmbedError>)
    requires
        headers_lie(old(data)@, *headers),
    ensures
        match r {
            Ok(_) => shifted_debug(old(data)@, *headers, grow as int) == Ok::<
                Seq<u8>,
                EmbedError,
            >(final(data)@) && final(data)@.len() == old(data)@.len(),
            Err(e) => shifted_debug(old(data)@, *headers, grow as int) == Err::<
                Seq<u8>,
                EmbedError,
            >(e),
        },
{
    assert(data.len() <= usize::MAX);
    if headers.directory_count <= 6 {
        return Ok(());
    }
    let size: u32 = get_u32(data, headers.nt + 188);
    if size == 0 {
        return Ok(());
    }
    let rva: u32 = get_u32(data, headers.nt + 184);
    let off: u64 = match find_rva(data, headers.table, headers.section_count, rva) {
        Some(off) => off,
        None => return Err(EmbedError::DebugNotInSection),
    };
    let count: u64 = (size / 28) as u64;
    if off > data.len() as u64 || 28 * count > data.len() as u64 - off {
        return Err(EmbedError::TruncatedDebugDirectory);
    }
    shift_pointers(data, off as usize, 28, 24, count as usize, grow)
}

/// Grow a PE image's header block so the section table can take another entry.
fn pe_grow_headers(data: Vec<u8>, headers: &PeHeaders, needed: u64) -> (r: Result<
    Vec<u8>,
    EmbedError,
>)
    requires
        headers_lie(data@, *headers),
        headers.size_of_headers < needed <= 0x2_0000_0000,
    ensures
        match r {
            Ok(out) => pe_grown(data@, *headers, needed as int) == Ok::<Seq<u8>, EmbedError>(out@),
            Err(e) => pe_grown(data@, *headers, needed as int) == Err::<Seq<u8>, EmbedError>(e),
        },
{
    broadcast use group_field_len;

    assert(data.len() <= usize::MAX);
    proof {
        lemma_align_int(
            needed - headers.size_of_headers,
            if headers.file_align < 1 {
                1
            } else {
                headers.file_align as int
            },
        );
    }
    if headers.size_of_headers as u64 > data.len() as u64 {
        return Err(EmbedError::HeadersOutsideFile);
    }
    let grow: u64 = align_to(
        needed - headers.size_of_headers as u64,
        headers.file_align as u64,
    )?;
    let symtab: u32 = get_u32(&data, headers.nt + 12);
    let new_size: u64 = headers.size_of_headers as u64 + grow;
    if new_size > u32::MAX as u64 || grow > (usize::MAX - data.len()) as u64 || symtab as u64
        + grow > u32::MAX as u64 {
        return Err(EmbedError::Overflow);
    }
    let mut moved: Vec<u8> = data;
    put_u32(&mut moved, headers.nt + 84, new_size as u32);
    if symtab != 0 {
        put_u32(&mut moved, headers.nt + 12, symtab + grow as u32);
    }
    shift_debug(&mut moved, headers, grow as u32)?;
    shift_pointers(
        &mut moved,
        headers.table,
        40,
        20,
        headers.section_count as usize,
        grow as u32,
    )?;
    let old_size: usize = headers.size_of_headers as usize;
    let mut out: Vec<u8> = Vec::with_capacity(moved.len() + grow as usize);
    push_bytes(&mut out, &moved[0..old_size]);
    resize_zero(&mut out, old_size + grow as usize);
    push_bytes(&mut out, &moved[old_size..moved.len()]);
    Ok(out)
}

/// PE: append a `.symdb` section. The new header entry goes in the FileAlignment padding
/// after the section table; the data is appended at EOF.
pub fn pe_embed(data: Vec<u8>, blob: &[u8]) -> (r: Result<Vec<u8>, EmbedError>)
    ensures
        match r {
            Ok(out) => pe_embedded(data@, blob@) == Ok::<Seq<u8>, EmbedError>(out@),
            Err(e) => pe_embedded(data@, blob@) == Err::<Seq<u8>, EmbedError>(e),
        },
    decreases usize::MAX - data@.len(),
{
    let headers: PeHeaders = read_headers(&data)?;
    let sections: PeSections = read_sections(&data, headers.table, headers.section_count)?;
    if sections.descriptor.is_none() {
        return Err(EmbedError::NoDescriptor);
    }
    // Room for one more header entry inside the header block, which must be padding today.
    // link.exe often sizes the header block exactly; grow it when there is no slack.
    let entry_end: u64 = headers.table as u64 + 40 * (headers.section_count as u64) + 40;
    if entry_end <= headers.size_of_headers as u64 {
        return add_section(data, blob, &headers, &sections);
    }
    proof {
        lemma_grown_len(data@, headers, entry_end as int);
    }
    let grown: Vec<u8> = pe_grow_headers(data, &headers, entry_end)?;
    pe_embed(grown, blob)
}

/// What the edits of the headers leave as it was.
proof fn lemma_header_edits(data: Seq<u8>, entry: int, new_entry: Seq<u8>, nt: int, a: u16, b: u32)
    requires
        0 <= nt,
        nt + 136 <= entry,
        entry + 40 <= data.len(),
        new_entry.len() == 40,
    ensures
        ({
            let out = overlay(
                overlay(
                    overlay(overlay(data, entry, new_entry), nt + 6, le16(a)),
                    nt + 80,
                    le32(b),
                ),
                nt + 88,
                le32(0),
            );
            &&& out.len() == data.len()
            &&& out.subrange(entry, entry + 40) == new_entry
            &&& forall|i: int|
                0 <= i < data.len() && !(nt <= i < nt + 136) && !(entry <= i < entry + 40)
                    ==> out[i] == data[i]
        }),
{
    broadcast use group_field_len;

    let d2 = overlay(data, entry, new_entry);
    let d3 = overlay(d2, nt + 6, le16(a));
    let d4 = overlay(d3, nt + 80, le32(b));
    let d5 = overlay(d4, nt + 88, le32(0));
    lemma_overlay_same(data, entry, new_entry);
    lemma_overlay_apart(d2, nt + 6, le16(a), entry, entry + 40);
    lemma_overlay_apart(d3, nt + 80, le32(b), entry, entry + 40);
    lemma_overlay_apart(d4, nt + 88, le32(0), entry, entry + 40);
}

/// The blob stands in the new file at the raw offset that the new table entry names, and the entry
/// and the descriptor name one address for it.
///
/// A descriptor that overlaps the table entry or the NT headers is left out.
pub proof fn law_pe_section_holds_blob(
    data: Seq<u8>,
    blob: Seq<u8>,
    headers: PeHeaders,
    sections: PeSections,
)
    requires
        data.len() <= usize::MAX,
        pe_with_section(data, blob, headers, sections).is_ok(),
        headers.nt + 136 <= headers.table,
        ({
            let descriptor = sections.descriptor->0 as int;
            let entry = headers.table + 40 * headers.section_count;
            (descriptor + 24 <= headers.nt || headers.nt + 136 <= descriptor) && (descriptor + 24
                <= entry || entry + 40 <= descriptor)
        }),
    ensures
        ({
            let out = pe_with_section(data, blob, headers, sections)->Ok_0;
            let entry = headers.table + 40 * headers.section_count;
            let descriptor = sections.descriptor->0 as int;
            let va = aligned_to(sections.end as int, headers.section_align as int) as u64;
            let raw = aligned_to(data.len() as int, headers.file_align as int);
            &&& out.subrange(entry, entry + 8) == SYMDB_NAME@
            &&& u32_at(out, entry + 12) == va as u32
            &&& u32_at(out, entry + 20) == (raw as u64) as u32
            &&& u64_at(out, descriptor + 8) == va
            &&& u64_at(out, descriptor + 16) == blob.len()
            &&& raw + blob.len() <= out.len()
            &&& out.subrange(raw, raw + blob.len()) == blob
        }),
{
    broadcast use group_field_len;

    let out = pe_with_section(data, blob, headers, sections)->Ok_0;
    let entry = headers.table + 40 * headers.section_count;
    let descriptor = sections.descriptor->0 as int;
    let align = if headers.file_align < 1 {
        1
    } else {
        headers.file_align as int
    };
    let va = aligned_to(sections.end as int, headers.section_align as int) as u64;
    let raw = aligned_to(data.len() as int, headers.file_align as int);
    let raw_size = aligned_to(blob.len() as int, headers.file_align as int);
    lemma_align_int(data.len() as int, align);
    lemma_align_int(blob.len() as int, align);
    let new_entry = pe_section_entry(blob.len() as int, va, raw_size as u64, raw as u64);
    assert(new_entry.len() == 40);
    let d1 = patched(data, descriptor, va, blob.len() as u64)->Ok_0;
    let image_end = aligned_to(va + blob.len(), headers.section_align as int);
    let count = (headers.section_count + 1) as u16;
    let nt = headers.nt as int;
    let d5 = overlay(
        overlay(
            overlay(overlay(d1, entry, new_entry), nt + 6, le16(count)),
            nt + 80,
            le32((image_end as u64) as u32),
        ),
        nt + 88,
        le32(0),
    );
    lemma_header_edits(d1, entry, new_entry, nt, count, (image_end as u64) as u32);
    assert(out == resized(resized(d5, raw) + blob, raw + raw_size));
    assert(forall|i: int| 0 <= i < data.len() ==> out[i] == d5[i]);
    assert(out.subrange(raw, raw + blob.len()) =~= blob);
    assert(out.subrange(entry, entry + 40) =~= new_entry);
    assert(out.subrange(entry, entry + 8) =~= new_entry.subrange(0, 8));
    assert(new_entry.subrange(0, 8) =~= SYMDB_NAME@);
    assert(out.subrange(entry + 12, entry + 16) =~= new_entry.subrange(12, 16));
    assert(new_entry.subrange(12, 16) =~= le32(va as u32));
    lemma_u32_at_le(out, entry + 12, va as u32);
    assert(out.subrange(entry + 20, entry + 24) =~= new_entry.subrange(20, 24));
    assert(new_entry.subrange(20, 24) =~= le32((raw as u64) as u32));
    lemma_u32_at_le(out, entry + 20, (raw as u64) as u32);
    let mid = overlay(data, descriptor + 8, le64(va));
    lemma_overlay_same(data, descriptor + 8, le64(va));
    lemma_overlay_apart(mid, descriptor + 16, le64(blob.len() as u64), descriptor + 8, descriptor + 16);
    lemma_overlay_same(mid, descriptor + 16, le64(blob.len() as u64));
    assert(out.subrange(descriptor + 8, descriptor + 16) =~= d1.subrange(
        descriptor + 8,
        descriptor + 16,
    ));
    lemma_u64_at_le(out, descriptor + 8, va);
    assert(out.subrange(descriptor + 16, descriptor + 24) =~= d1.subrange(
        descriptor + 16,
        descriptor + 24,
    ));
    lemma_u64_at_le(out, descriptor + 16, blob.len() as u64);
}

/// Embedding ends in adding a section to an image whose header block has room for it: the image
/// itself, or the image with a grown header block, which is no shorter.
pub proof fn law_pe_section_is_added_where_there_is_room(data: Seq<u8>, blob: Seq<u8>) -> (roomy: Seq<
    u8,
>)
    requires
        pe_embedded(data, blob).is_ok(),
    ensures
        data.len() <= roomy.len(),
        pe_headers(roomy) matches Ok(headers) && pe_sections(
            roomy,
            headers.table as int,
            headers.section_count as int,
            PeSections { descriptor: None, end: 0 },
        ) matches Ok(sections) && {
            &&& sections.descriptor is Some
            &&& headers.table + 40 * headers.section_count + 40 <= headers.size_of_headers
            &&& pe_embedded(data, blob) == pe_with_section(roomy, blob, headers, sections)
        },
    decreases usize::MAX - data.len(),
{
    let headers = pe_headers(data)->Ok_0;
    let entry_end = headers.table + 40 * headers.section_count + 40;
    if entry_end <= headers.size_of_headers {
        data
    } else {
        lemma_grown_len(data, headers, entry_end);
        law_pe_section_is_added_where_there_is_room(
            pe_grown(data, headers, entry_end)->Ok_0,
            blob,
        )
    }
}

} // verus!
