//! The descriptor that a program compiles in.

use vstd::prelude::*;
use crate::bytes::{
    align_int, get_u64, group_field_len, le64, lemma_overlay_apart, lemma_overlay_same,
    lemma_u64_at_le, lemma_u64_at_same, overlay, put_u64, u64_at,
};
use crate::util::macho::MachOError;

verus! {

/// "SYMDBHDR", the compile-time value of the descriptor's first field.
pub const DESCRIPTOR_MAGIC: u64 = 0x5244_4842_444d_5953;

/// Why a blob could not be embedded.
#[derive(Clone, Copy, Debug, PartialEq, Eq, Structural)]
pub enum EmbedError {
    ParseFailed,
    UnsupportedFormat,
    DescriptorOutside,
    DescriptorMagic(u64),
    AlreadyPatched,
    AlreadyEmbedded,
    NoDescriptor,
    DescriptorTooSmall,
    DescriptorNotFileBacked,
    DescriptorOffsetTooLarge,
    Overflow,
    TruncatedDosHeader,
    BadLfanew,
    TruncatedNtHeaders,
    BadPeSignature,
    NotPe32Plus,
    TruncatedDirectories,
    Signed,
    TruncatedSectionTable,
    NoPadding,
    DebugNotInSection,
    TruncatedDebugDirectory,
    HeadersOutsideFile,
    TruncatedElfHeader,
    NotElf64,
    ElfEntrySizes,
    ElfExtendedCounts,
    TruncatedProgramHeaders,
    TruncatedSectionHeaders,
    BadShstrndx,
    TruncatedShstrtab,
    MachO(MachOError),
}

/// The bytes with the descriptor at `offset` patched: its magic must be there, and it must not have
/// been patched before.
pub open spec fn patched(data: Seq<u8>, offset: int, rva: u64, size: u64) -> Result<
    Seq<u8>,
    EmbedError,
> {
    if offset + 24 > data.len() {
        Err(EmbedError::DescriptorOutside)
    } else if u64_at(data, offset) != DESCRIPTOR_MAGIC {
        Err(EmbedError::DescriptorMagic(u64_at(data, offset)))
    } else if u64_at(data, offset + 8) != 0 {
        Err(EmbedError::AlreadyPatched)
    } else {
        Ok(overlay(overlay(data, offset + 8, le64(rva)), offset + 16, le64(size)))
    }
}

/// Verify the descriptor's magic and unpatched state, then write {rva, size}.
pub fn patch_descriptor(data: &mut Vec<u8>, offset: u64, rva: u64, size: u64) -> (r: Result<
    (),
    EmbedError,
>)
    ensures
        match r {
            Ok(_) => patched(old(data)@, offset as int, rva, size) == Ok::<Seq<u8>, EmbedError>(
                final(data)@,
            ) && final(data)@.len() == old(data)@.len(),
            Err(e) => patched(old(data)@, offset as int, rva, size) == Err::<Seq<u8>, EmbedError>(
                e,
            ) && final(data)@ == old(data)@,
        },
{
    broadcast use group_field_len;

    assert(data.len() <= usize::MAX);
    let len: u64 = data.len() as u64;
    if len < 24 || offset > len - 24 {
        return Err(EmbedError::DescriptorOutside);
    }
    let at: usize = offset as usize;
    let magic: u64 = get_u64(data, at);
    if magic != DESCRIPTOR_MAGIC {
        return Err(EmbedError::DescriptorMagic(magic));
    }
    if get_u64(data, at + 8) != 0 {
        return Err(EmbedError::AlreadyPatched);
    }
    put_u64(data, at + 8, rva);
    put_u64(data, at + 16, size);
    Ok(())
}

/// A patched descriptor holds what it was patched with and cannot be patched again.
pub proof fn law_descriptor_is_patched_once(
    data: Seq<u8>,
    offset: int,
    rva: u64,
    size: u64,
    rva2: u64,
    size2: u64,
)
    requires
        0 <= offset,
        rva != 0,
        patched(data, offset, rva, size).is_ok(),
    ensures
        ({
            let out = patched(data, offset, rva, size)->Ok_0;
            &&& u64_at(out, offset) == DESCRIPTOR_MAGIC
            &&& u64_at(out, offset + 8) == rva
            &&& u64_at(out, offset + 16) == size
            &&& patched(out, offset, rva2, size2) == Err::<Seq<u8>, EmbedError>(
                EmbedError::AlreadyPatched,
            )
        }),
{
    broadcast use group_field_len;

    let mid = overlay(data, offset + 8, le64(rva));
    let out = overlay(mid, offset + 16, le64(size));
    lemma_overlay_same(mid, offset + 16, le64(size));
    lemma_u64_at_le(out, offset + 16, size);
    lemma_overlay_apart(mid, offset + 16, le64(size), offset + 8, offset + 16);
    lemma_overlay_same(data, offset + 8, le64(rva));
    lemma_u64_at_le(out, offset + 8, rva);
    lemma_overlay_apart(mid, offset + 16, le64(size), offset, offset + 8);
    lemma_overlay_apart(data, offset + 8, le64(rva), offset, offset + 8);
    lemma_u64_at_same(out, offset, data, offset);
}

/// The least multiple of `align` that is not below `value`; an alignment of zero counts as one.
pub open spec fn aligned_to(value: int, align: int) -> int {
    align_int(
        value,
        if align < 1 {
            1
        } else {
            align
        },
    )
}

/// Round `value` up to a multiple of `align`, where the result can be held.
pub fn align_to(value: u64, align: u64) -> (r: Result<u64, EmbedError>)
    ensures
        match r {
            Ok(v) => v == aligned_to(value as int, align as int),
            Err(e) => e == EmbedError::Overflow && aligned_to(value as int, align as int)
                > u64::MAX,
        },
{
    let align: u64 = if align == 0 {
        1
    } else {
        align
    };
    let rest: u64 = value % align;
    if rest == 0 {
        return Ok(value);
    }
    match value.checked_add(align - rest) {
        Some(v) => Ok(v),
        None => Err(EmbedError::Overflow),
    }
}

} // verus!
