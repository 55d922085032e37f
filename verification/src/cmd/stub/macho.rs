//! Minimal `MH_EXECUTE`: no code, just export info for the linker to read via `-bundle_loader`.
//!
//! dyld never loads it. `LC_MAIN` and `LC_SYMTAB` exist only because ld-prime and ld-classic
//! respectively refuse executables without them.

use vstd::prelude::*;
use crate::bytes::{
    align_int, be32, byte_rows, group_field_len, le16, le32, le64, lemma_u32_at_le, push_be32,
    push_bytes, push_u16, push_u32, push_u64, resize_zero, resized, u32_at, zeros,
};
use crate::util::macho::format::{
    CPU_TYPE_ARM64, CPU_TYPE_X86_64, LC_BUILD_VERSION, LC_DYLD_EXPORTS_TRIE, LC_DYSYMTAB, LC_MAIN,
    LC_SEGMENT_64, LC_SYMTAB, MH_MAGIC_64,
};
use super::elf::string_table;
use super::Arch;

verus! {

broadcast use group_field_len;

pub const PAGE_SIZE: u64 = 0x4000;

pub const TEXT_VMADDR: u64 = 0x1_0000_0000;

/// `MH_NOUNDEFS`, `MH_DYLDLINK`, `MH_TWOLEVEL` and `MH_PIE`.
pub const MH_FLAGS: u32 = 0x20_0085;

pub const FAT_MAGIC: u32 = 0xcafe_babe;

pub const PLATFORM_MACOS: u32 = 1;

pub const PLATFORM_IOS: u32 = 2;

pub const PLATFORM_TVOS: u32 = 3;

/// CPU type and subtype of an architecture.
pub open spec fn cpu_of(arch: Arch) -> (u32, u32) {
    match arch {
        Arch::Arm64 => (CPU_TYPE_ARM64, 0),
        Arch::X86_64 => (CPU_TYPE_X86_64, 3),
    }
}

fn find_cpu(arch: Arch) -> (r: (u32, u32))
    ensures
        r == cpu_of(arch),
{
    match arch {
        Arch::Arm64 => (CPU_TYPE_ARM64, 0),
        Arch::X86_64 => (CPU_TYPE_X86_64, 3),
    }
}

/// An absolute external symbol.
pub open spec fn macho_symbol(name: u32) -> Seq<u8> {
    le32(name) + seq![3u8, 0u8] + le16(0) + le64(TEXT_VMADDR)
}

/// The symbols of the names.
pub open spec fn macho_symbols(names: Seq<Seq<u8>>) -> Seq<u8>
    decreases names.len(),
{
    if names.len() == 0 {
        Seq::empty()
    } else {
        macho_symbols(names.drop_last()) + macho_symbol(
            string_table(names.drop_last()).len() as u32,
        )
    }
}

/// Absolute external symbols mirroring the export trie, and their names: ld-classic reads a
/// bundle_loader executable's exports from `LC_SYMTAB`, not the trie.
pub fn symbol_table(symbols: &[Vec<u8>]) -> (r: (Vec<u8>, Vec<u8>))
    ensures
        r.0@ == macho_symbols(byte_rows(symbols@)),
        r.1@ == string_table(byte_rows(symbols@)),
{
    let ghost all = byte_rows(symbols@);
    let mut symtab: Vec<u8> = Vec::new();
    let mut strtab: Vec<u8> = Vec::new();
    strtab.push(0);  // index 0 = empty name
    assert(all.subrange(0, 0) =~= Seq::empty());
    assert(strtab@ =~= string_table(all.subrange(0, 0)));
    assert(symtab@ =~= macho_symbols(all.subrange(0, 0)));
    let mut i: usize = 0;
    while i < symbols.len()
        invariant
            i <= symbols@.len(),
            all == byte_rows(symbols@),
            strtab@ == string_table(all.subrange(0, i as int)),
            symtab@ == macho_symbols(all.subrange(0, i as int)),
        decreases symbols@.len() - i,
    {
        let ghost next = all.subrange(0, i + 1);
        let ghost symbols_before = symtab@;
        proof {
            assert(next.drop_last() =~= all.subrange(0, i as int));
            assert(next.last() == symbols@[i as int]@);
        }
        #[verifier::truncate]
        let strx: u32 = strtab.len() as u32;
        push_u32(&mut symtab, strx);
        symtab.push(3);
        symtab.push(0);
        push_u16(&mut symtab, 0);
        push_u64(&mut symtab, TEXT_VMADDR);
        push_bytes(&mut strtab, &symbols[i]);
        strtab.push(0);
        proof {
            assert(symtab@ =~= symbols_before + macho_symbol(strx));
            assert(strtab@ =~= string_table(next));
        }
        i = i + 1;
    }
    assert(all.subrange(0, all.len() as int) =~= all);
    (symtab, strtab)
}

/// `__TEXT`
pub open spec fn text_name() -> Seq<u8> {
    seq![0x5fu8, 0x5f, 0x54, 0x45, 0x58, 0x54, 0, 0, 0, 0, 0, 0, 0, 0, 0, 0]
}

/// `__LINKEDIT`
pub open spec fn linkedit_name() -> Seq<u8> {
    seq![0x5fu8, 0x5f, 0x4c, 0x49, 0x4e, 0x4b, 0x45, 0x44, 0x49, 0x54, 0, 0, 0, 0, 0, 0]
}

/// What a slice is made of: where its symbols and strings stand and how long the parts are.
pub struct SliceLayout {
    pub symtab_off: int,
    pub strtab_off: int,
    pub size: int,
}

pub open spec fn slice_layout(trie: int, symtab: int, strtab: int) -> SliceLayout {
    let symtab_off = align_int(PAGE_SIZE + trie, 8);
    let strtab_off = symtab_off + symtab;
    SliceLayout { symtab_off, strtab_off, size: strtab_off + strtab }
}

/// The Mach-O header and the two segments.
pub open spec fn slice_head(arch: Arch, linkedit_size: int) -> Seq<u8> {
    le32(MH_MAGIC_64) + le32(cpu_of(arch).0) + le32(cpu_of(arch).1) + le32(2) + le32(7) + le32(312)
        + le32(MH_FLAGS) + le32(0) + segment_command(
        text_name(),
        TEXT_VMADDR,
        PAGE_SIZE,
        0,
        PAGE_SIZE,
        5,
    ) + segment_command(
        linkedit_name(),
        (TEXT_VMADDR + PAGE_SIZE) as u64,
        align_int(linkedit_size, PAGE_SIZE as int) as u64,
        PAGE_SIZE,
        linkedit_size as u64,
        1,
    )
}

/// A segment without sections.
pub open spec fn segment_command(
    name: Seq<u8>,
    vmaddr: u64,
    vmsize: u64,
    fileoff: u64,
    filesize: u64,
    prot: u32,
) -> Seq<u8> {
    le32(LC_SEGMENT_64) + le32(72) + name + le64(vmaddr) + le64(vmsize) + le64(fileoff) + le64(filesize)
        + le32(prot) + le32(prot) + le32(0) + le32(0)
}

/// `LC_DYLD_EXPORTS_TRIE`, `LC_SYMTAB` and `LC_DYSYMTAB`.
pub open spec fn slice_tables(trie: int, symtab: int, strtab: int) -> Seq<u8> {
    let layout = slice_layout(trie, symtab, strtab);
    let nsyms = (symtab / 16) as u32;
    le32(LC_DYLD_EXPORTS_TRIE) + le32(16) + le32(PAGE_SIZE as u32) + le32(trie as u32) + le32(LC_SYMTAB) + le32(24)
        + le32(layout.symtab_off as u32) + le32(nsyms) + le32(layout.strtab_off as u32) + le32(
        strtab as u32,
    ) + le32(LC_DYSYMTAB) + le32(80) + le32(0) + le32(0) + le32(0) + le32(nsyms) + le32(nsyms) + zeros(52)
}

/// `LC_MAIN` and `LC_BUILD_VERSION`.
pub open spec fn slice_versions(platform: u32, min_os: u32) -> Seq<u8> {
    le32(LC_MAIN) + le32(24) + le64(0x1000) + le64(0) + le32(LC_BUILD_VERSION) + le32(24) + le32(platform)
        + le32(min_os) + le32(min_os) + le32(0)
}

/// The slice of one architecture.
pub open spec fn macho_slice_of(
    arch: Arch,
    platform: u32,
    min_os: u32,
    trie: Seq<u8>,
    symtab: Seq<u8>,
    strtab: Seq<u8>,
) -> Seq<u8> {
    let layout = slice_layout(trie.len() as int, symtab.len() as int, strtab.len() as int);
    let commands = slice_head(arch, layout.size - PAGE_SIZE) + slice_tables(
        trie.len() as int,
        symtab.len() as int,
        strtab.len() as int,
    ) + slice_versions(platform, min_os);
    resized(resized(commands, PAGE_SIZE as int) + trie, layout.symtab_off) + symtab + strtab
}

fn push_segment(
    out: &mut Vec<u8>,
    name: &[u8],
    vmaddr: u64,
    vmsize: u64,
    fileoff: u64,
    filesize: u64,
    prot: u32,
)
    ensures
        final(out)@ == old(out)@ + segment_command(name@, vmaddr, vmsize, fileoff, filesize, prot),
{
    push_u32(out, LC_SEGMENT_64);
    push_u32(out, 72);
    push_bytes(out, name);
    push_u64(out, vmaddr);
    push_u64(out, vmsize);
    push_u64(out, fileoff);
    push_u64(out, filesize);
    push_u32(out, prot);
    push_u32(out, prot);
    push_u32(out, 0);
    push_u32(out, 0);
    assert(out@ =~= old(out)@ + segment_command(name@, vmaddr, vmsize, fileoff, filesize, prot));
}

fn push_head(out: &mut Vec<u8>, arch: Arch, linkedit_size: u64)
    requires
        linkedit_size + PAGE_SIZE <= u64::MAX,
    ensures
        final(out)@ == old(out)@ + slice_head(arch, linkedit_size as int),
{
    let (cputype, cpusubtype) = find_cpu(arch);
    let text: [u8; 16] = [0x5f, 0x5f, 0x54, 0x45, 0x58, 0x54, 0, 0, 0, 0, 0, 0, 0, 0, 0, 0];
    let linkedit: [u8; 16] = [
        0x5f, 0x5f, 0x4c, 0x49, 0x4e, 0x4b, 0x45, 0x44, 0x49, 0x54, 0, 0, 0, 0, 0, 0,
    ];
    assert(text@ =~= text_name());
    assert(linkedit@ =~= linkedit_name());
    let rest: u64 = linkedit_size % PAGE_SIZE;
    let vmsize: u64 = if rest == 0 {
        linkedit_size
    } else {
        linkedit_size + (PAGE_SIZE - rest)
    };
    push_u32(out, MH_MAGIC_64);
    push_u32(out, cputype);
    push_u32(out, cpusubtype);
    push_u32(out, 2);
    push_u32(out, 7);
    push_u32(out, 312);
    push_u32(out, MH_FLAGS);
    push_u32(out, 0);
    push_segment(out, &text, TEXT_VMADDR, PAGE_SIZE, 0, PAGE_SIZE, 5);
    push_segment(
        out,
        &linkedit,
        TEXT_VMADDR + PAGE_SIZE,
        vmsize,
        PAGE_SIZE,
        linkedit_size,
        1,
    );
    assert(out@ =~= old(out)@ + slice_head(arch, linkedit_size as int));
}

fn push_slice_tables(
    out: &mut Vec<u8>,
    trie: usize,
    symtab: usize,
    strtab: usize,
    symtab_off: u64,
    strtab_off: u64,
)
    requires
        symtab_off == slice_layout(trie as int, symtab as int, strtab as int).symtab_off,
        strtab_off == slice_layout(trie as int, symtab as int, strtab as int).strtab_off,
    ensures
        final(out)@ == old(out)@ + slice_tables(trie as int, symtab as int, strtab as int),
{
    #[verifier::truncate]
    let nsyms: u32 = (symtab / 16) as u32;
    #[verifier::truncate]
    let datasize: u32 = trie as u32;
    #[verifier::truncate]
    let symoff: u32 = symtab_off as u32;
    #[verifier::truncate]
    let stroff: u32 = strtab_off as u32;
    #[verifier::truncate]
    let strsize: u32 = strtab as u32;
    push_u32(out, LC_DYLD_EXPORTS_TRIE);
    push_u32(out, 16);
    push_u32(out, PAGE_SIZE as u32);
    push_u32(out, datasize);
    push_u32(out, LC_SYMTAB);
    push_u32(out, 24);
    push_u32(out, symoff);
    push_u32(out, nsyms);
    push_u32(out, stroff);
    push_u32(out, strsize);
    push_u32(out, LC_DYSYMTAB);
    push_u32(out, 80);
    push_u32(out, 0);
    push_u32(out, 0);
    push_u32(out, 0);
    push_u32(out, nsyms);
    push_u32(out, nsyms);
    let mut empty: Vec<u8> = Vec::new();
    resize_zero(&mut empty, 52);
    assert(empty@ =~= zeros(52));
    push_bytes(out, &empty);
    assert(out@ =~= old(out)@ + slice_tables(trie as int, symtab as int, strtab as int));
}

fn push_versions(out: &mut Vec<u8>, platform: u32, min_os: u32)
    ensures
        final(out)@ == old(out)@ + slice_versions(platform, min_os),
{
    push_u32(out, LC_MAIN);
    push_u32(out, 24);
    push_u64(out, 0x1000);
    push_u64(out, 0);
    push_u32(out, LC_BUILD_VERSION);
    push_u32(out, 24);
    push_u32(out, platform);
    push_u32(out, min_os);
    push_u32(out, min_os);
    push_u32(out, 0);
    assert(out@ =~= old(out)@ + slice_versions(platform, min_os));
}

/// Whether a slice of these parts can be held.
pub fn slice_fits(trie: usize, symtab: usize, strtab: usize) -> (r: bool)
    ensures
        r == (slice_layout(trie as int, symtab as int, strtab as int).size + PAGE_SIZE
            <= usize::MAX),
{
    let end: u128 = PAGE_SIZE as u128 + trie as u128;
    let symtab_off: u128 = if end % 8 == 0 {
        end
    } else {
        end + (8 - end % 8)
    };
    symtab_off + symtab as u128 + strtab as u128 + PAGE_SIZE as u128 <= usize::MAX as u128
}

/// Write the slice of one architecture.
pub fn macho_slice(
    arch: Arch,
    platform: u32,
    min_os: u32,
    trie: &[u8],
    symtab: &[u8],
    strtab: &[u8],
) -> (r: Vec<u8>)
    requires
        slice_layout(trie@.len() as int, symtab@.len() as int, strtab@.len() as int).size
            + PAGE_SIZE <= usize::MAX,
    ensures
        r@ == macho_slice_of(arch, platform, min_os, trie@, symtab@, strtab@),
{
    let end: u64 = PAGE_SIZE + trie.len() as u64;
    let symtab_off: u64 = if end % 8 == 0 {
        end
    } else {
        end + (8 - end % 8)
    };
    let strtab_off: u64 = symtab_off + symtab.len() as u64;
    let linkedit_size: u64 = strtab_off + strtab.len() as u64 - PAGE_SIZE;
    let mut data: Vec<u8> = Vec::new();
    push_head(&mut data, arch, linkedit_size);
    push_slice_tables(&mut data, trie.len(), symtab.len(), strtab.len(), symtab_off, strtab_off);
    push_versions(&mut data, platform, min_os);
    assert(data@ =~= slice_head(arch, linkedit_size as int) + slice_tables(
        trie@.len() as int,
        symtab@.len() as int,
        strtab@.len() as int,
    ) + slice_versions(platform, min_os));
    resize_zero(&mut data, PAGE_SIZE as usize);
    push_bytes(&mut data, trie);
    resize_zero(&mut data, symtab_off as usize);
    push_bytes(&mut data, symtab);
    push_bytes(&mut data, strtab);
    data
}

/// Where the `i`-th slice of a universal binary stands.
pub open spec fn fat_offset(slices: Seq<Seq<u8>>, i: int) -> int
    decreases i,
{
    if i <= 0 {
        PAGE_SIZE as int
    } else {
        align_int(fat_offset(slices, i - 1) + slices[i - 1].len(), PAGE_SIZE as int)
    }
}

/// The entries of the first `n` slices.
pub open spec fn fat_entries(arches: Seq<Arch>, slices: Seq<Seq<u8>>, n: int) -> Seq<u8>
    decreases n,
{
    if n <= 0 {
        Seq::empty()
    } else {
        fat_entries(arches, slices, n - 1) + be32(cpu_of(arches[n - 1]).0) + be32(
            cpu_of(arches[n - 1]).1,
        ) + be32(fat_offset(slices, n - 1) as u32) + be32(slices[n - 1].len() as u32) + be32(14)
    }
}

/// The bytes before the slices, then the first `n` slices, each at its place.
pub open spec fn fat_slices(head: Seq<u8>, slices: Seq<Seq<u8>>, n: int) -> Seq<u8>
    decreases n,
{
    if n <= 0 {
        head
    } else {
        resized(fat_slices(head, slices, n - 1), fat_offset(slices, n - 1)) + slices[n - 1]
    }
}

/// The universal binary of the slices of the architectures.
pub open spec fn fat_of(arches: Seq<Arch>, slices: Seq<Seq<u8>>) -> Seq<u8> {
    let entries = if arches.len() < slices.len() {
        arches.len() as int
    } else {
        slices.len() as int
    };
    fat_slices(
        be32(FAT_MAGIC) + be32(slices.len() as u32) + fat_entries(arches, slices, entries),
        slices,
        slices.len() as int,
    )
}

proof fn lemma_fat_offset(slices: Seq<Seq<u8>>, i: int, n: int)
    requires
        0 <= i <= n,
    ensures
        PAGE_SIZE <= fat_offset(slices, i) <= fat_offset(slices, n),
        i < n ==> fat_offset(slices, i) + slices[i].len() <= fat_offset(slices, n),
    decreases n,
{
    if i < n {
        lemma_fat_offset(slices, i, n - 1);
    } else if n > 0 {
        lemma_fat_offset(slices, n - 1, n - 1);
    }
}

/// Where the slices of a universal binary stand; nothing where it could not be held.
fn find_fat_offsets(slices: &[Vec<u8>]) -> (r: Option<Vec<u64>>)
    ensures
        match r {
            Some(offsets) => {
                &&& offsets@.len() == slices@.len()
                &&& fat_offset(byte_rows(slices@), slices@.len() as int) <= usize::MAX
                &&& forall|k: int|
                    0 <= k < slices@.len() ==> #[trigger] offsets@[k] == fat_offset(
                        byte_rows(slices@),
                        k,
                    )
            },
            None => fat_offset(byte_rows(slices@), slices@.len() as int) > usize::MAX,
        },
{
    let ghost all = byte_rows(slices@);
    let mut offsets: Vec<u64> = Vec::new();
    let mut offset: u64 = PAGE_SIZE;
    let mut i: usize = 0;
    while i < slices.len()
        invariant
            i <= slices@.len(),
            all == byte_rows(slices@),
            offsets@.len() == i,
            offset == fat_offset(all, i as int),
            offset <= usize::MAX,
            forall|k: int| 0 <= k < i ==> #[trigger] offsets@[k] == fat_offset(all, k),
        decreases slices@.len() - i,
    {
        offsets.push(offset);
        let end: u128 = offset as u128 + slices[i].len() as u128;
        let rest: u128 = end % PAGE_SIZE as u128;
        let next: u128 = if rest == 0 {
            end
        } else {
            end + (PAGE_SIZE as u128 - rest)
        };
        assert(next == fat_offset(all, i + 1));
        if next > usize::MAX as u128 {
            proof {
                lemma_fat_offset(all, i + 1, all.len() as int);
            }
            return None;
        }
        offset = next as u64;
        i = i + 1;
    }
    Some(offsets)
}

/// Write the universal binary of the slices; nothing where it could not be held.
pub fn fat_binary(arches: &[Arch], slices: &[Vec<u8>]) -> (r: Option<Vec<u8>>)
    ensures
        match r {
            Some(data) => data@ == fat_of(arches@, byte_rows(slices@)),
            None => fat_offset(byte_rows(slices@), slices@.len() as int) > usize::MAX,
        },
{
    let ghost all = byte_rows(slices@);
    let offsets: Vec<u64> = match find_fat_offsets(slices) {
        Some(offsets) => offsets,
        None => return None,
    };
    let mut data: Vec<u8> = Vec::new();
    push_be32(&mut data, FAT_MAGIC);
    #[verifier::truncate]
    let count: u32 = slices.len() as u32;
    push_be32(&mut data, count);
    let ghost head = data@;
    let mut i: usize = 0;
    assert(data@ =~= head + fat_entries(arches@, all, 0));
    while i < arches.len() && i < slices.len()
        invariant
            i <= arches@.len(),
            i <= slices@.len(),
            all == byte_rows(slices@),
            offsets@.len() == slices@.len(),
            forall|k: int|
                0 <= k < slices@.len() ==> #[trigger] offsets@[k] == fat_offset(all, k),
            data@ == head + fat_entries(arches@, all, i as int),
        decreases slices@.len() - i,
    {
        let (cputype, cpusubtype) = find_cpu(arches[i]);
        assert(offsets@[i as int] == fat_offset(all, i as int));
        #[verifier::truncate]
        let offset: u32 = offsets[i] as u32;
        #[verifier::truncate]
        let size: u32 = slices[i].len() as u32;
        push_be32(&mut data, cputype);
        push_be32(&mut data, cpusubtype);
        push_be32(&mut data, offset);
        push_be32(&mut data, size);
        push_be32(&mut data, 14);
        assert(data@ =~= head + fat_entries(arches@, all, i + 1));
        i = i + 1;
    }
    let ghost front = data@;
    assert(front =~= be32(FAT_MAGIC) + be32(slices@.len() as u32) + fat_entries(
        arches@,
        all,
        i as int,
    ));
    i = 0;
    while i < slices.len()
        invariant
            i <= slices@.len(),
            all == byte_rows(slices@),
            offsets@.len() == slices@.len(),
            fat_offset(all, slices@.len() as int) <= usize::MAX,
            forall|k: int|
                0 <= k < slices@.len() ==> #[trigger] offsets@[k] == fat_offset(all, k),
            data@ == fat_slices(front, all, i as int),
        decreases slices@.len() - i,
    {
        proof {
            assert(offsets@[i as int] == fat_offset(all, i as int));
            lemma_fat_offset(all, i as int, slices@.len() as int);
        }
        resize_zero(&mut data, offsets[i] as usize);
        push_bytes(&mut data, &slices[i]);
        i = i + 1;
    }
    Some(data)
}

/// The slice's tables stand where its load commands say: the trie at the offset and with the size
/// that `LC_DYLD_EXPORTS_TRIE` gives, the symbols and the strings where `LC_SYMTAB` puts them.
pub proof fn law_slice_commands_point_at_the_tables(
    arch: Arch,
    platform: u32,
    min_os: u32,
    trie: Seq<u8>,
    symtab: Seq<u8>,
    strtab: Seq<u8>,
)
    requires
        slice_layout(trie.len() as int, symtab.len() as int, strtab.len() as int).size <= u32::MAX,
    ensures
        ({
            let slice = macho_slice_of(arch, platform, min_os, trie, symtab, strtab);
            let dataoff = u32_at(slice, 184);
            let symoff = u32_at(slice, 200);
            let stroff = u32_at(slice, 208);
            &&& slice.subrange(dataoff as int, dataoff + u32_at(slice, 188)) == trie
            &&& slice.subrange(symoff as int, symoff + symtab.len()) == symtab
            &&& u32_at(slice, 204) == symtab.len() / 16
            &&& slice.subrange(stroff as int, stroff + u32_at(slice, 212)) == strtab
        }),
{
    let layout = slice_layout(trie.len() as int, symtab.len() as int, strtab.len() as int);
    let head = slice_head(arch, layout.size - PAGE_SIZE);
    let tables = slice_tables(trie.len() as int, symtab.len() as int, strtab.len() as int);
    let versions = slice_versions(platform, min_os);
    assert(head.len() == 176);
    assert(tables.len() == 120);
    assert(versions.len() == 48);
    let commands = head + tables + versions;
    let slice = macho_slice_of(arch, platform, min_os, trie, symtab, strtab);
    let padded = resized(commands, PAGE_SIZE as int);
    let with_trie = resized(padded + trie, layout.symtab_off);
    assert(slice == with_trie + symtab + strtab);
    assert(with_trie.len() == layout.symtab_off);
    assert forall|k: int| 0 <= k < 120 implies slice[176 + k] == #[trigger] tables[k] by {
        assert(commands[176 + k] == tables[k]);
        assert(padded[176 + k] == commands[176 + k]);
        assert(with_trie[176 + k] == padded[176 + k]);
    }
    let nsyms = (symtab.len() / 16) as u32;
    assert(slice.subrange(184, 188) =~= le32(PAGE_SIZE as u32)) by {
        assert(tables.subrange(8, 12) =~= le32(PAGE_SIZE as u32));
        lemma_shifted(slice, tables, 8);
    }
    assert(slice.subrange(188, 192) =~= le32(trie.len() as u32)) by {
        assert(tables.subrange(12, 16) =~= le32(trie.len() as u32));
        lemma_shifted(slice, tables, 12);
    }
    assert(slice.subrange(200, 204) =~= le32(layout.symtab_off as u32)) by {
        assert(tables.subrange(24, 28) =~= le32(layout.symtab_off as u32));
        lemma_shifted(slice, tables, 24);
    }
    assert(slice.subrange(204, 208) =~= le32(nsyms)) by {
        assert(tables.subrange(28, 32) =~= le32(nsyms));
        lemma_shifted(slice, tables, 28);
    }
    assert(slice.subrange(208, 212) =~= le32(layout.strtab_off as u32)) by {
        assert(tables.subrange(32, 36) =~= le32(layout.strtab_off as u32));
        lemma_shifted(slice, tables, 32);
    }
    assert(slice.subrange(212, 216) =~= le32(strtab.len() as u32)) by {
        assert(tables.subrange(36, 40) =~= le32(strtab.len() as u32));
        lemma_shifted(slice, tables, 36);
    }
    lemma_u32_at_le(slice, 184, PAGE_SIZE as u32);
    lemma_u32_at_le(slice, 188, trie.len() as u32);
    lemma_u32_at_le(slice, 200, layout.symtab_off as u32);
    lemma_u32_at_le(slice, 204, nsyms);
    lemma_u32_at_le(slice, 208, layout.strtab_off as u32);
    lemma_u32_at_le(slice, 212, strtab.len() as u32);
    assert(slice.subrange(PAGE_SIZE as int, PAGE_SIZE + trie.len()) =~= trie) by {
        assert forall|k: int| 0 <= k < trie.len() implies slice[PAGE_SIZE + k]
            == #[trigger] trie[k] by {
            assert((padded + trie)[PAGE_SIZE + k] == trie[k]);
            assert(with_trie[PAGE_SIZE + k] == trie[k]);
        }
    }
    assert(slice.subrange(layout.symtab_off, layout.symtab_off + symtab.len()) =~= symtab);
    assert(slice.subrange(layout.strtab_off, layout.strtab_off + strtab.len()) =~= strtab);
}

proof fn lemma_shifted(slice: Seq<u8>, tables: Seq<u8>, at: int)
    requires
        0 <= at <= 116,
        tables.len() == 120,
        slice.len() >= 296,
        forall|k: int| 0 <= k < 120 ==> slice[176 + k] == #[trigger] tables[k],
    ensures
        slice.subrange(176 + at, 176 + at + 4) == tables.subrange(at, at + 4),
{
    assert forall|k: int| 0 <= k < 4 implies slice.subrange(176 + at, 176 + at + 4)[k]
        == #[trigger] tables.subrange(at, at + 4)[k] by {
        assert(slice[176 + (at + k)] == tables[at + k]);
    }
    assert(slice.subrange(176 + at, 176 + at + 4) =~= tables.subrange(at, at + 4));
}

/// Every slice of a universal binary stands at its offset, a multiple of the page size.
pub proof fn law_fat_binary_holds_its_slices(arches: Seq<Arch>, slices: Seq<Seq<u8>>, i: int)
    requires
        0 <= i < slices.len(),
        8 + 20 * slices.len() <= PAGE_SIZE,
    ensures
        ({
            let data = fat_of(arches, slices);
            let at = fat_offset(slices, i);
            at % PAGE_SIZE as int == 0 && data.subrange(at, at + slices[i].len()) == slices[i]
        }),
{
    let entries = if arches.len() < slices.len() {
        arches.len() as int
    } else {
        slices.len() as int
    };
    let head = be32(FAT_MAGIC) + be32(slices.len() as u32) + fat_entries(
        arches,
        slices,
        entries,
    );
    lemma_fat_entries(arches, slices, entries);
    lemma_fat_slices(head, slices, slices.len() as int, i);
}

proof fn lemma_fat_entries(arches: Seq<Arch>, slices: Seq<Seq<u8>>, n: int)
    requires
        0 <= n,
    ensures
        fat_entries(arches, slices, n).len() == 20 * n,
    decreases n,
{
    if n > 0 {
        lemma_fat_entries(arches, slices, n - 1);
    }
}

proof fn lemma_fat_slices(head: Seq<u8>, slices: Seq<Seq<u8>>, n: int, i: int)
    requires
        0 <= i < n <= slices.len(),
        head.len() <= PAGE_SIZE,
    ensures
        fat_slices(head, slices, n).len() == fat_offset(slices, n - 1) + slices[n - 1].len(),
        fat_offset(slices, i) % PAGE_SIZE as int == 0,
        fat_slices(head, slices, n).subrange(
            fat_offset(slices, i),
            fat_offset(slices, i) + slices[i].len(),
        ) == slices[i],
    decreases n,
{
    let before = fat_slices(head, slices, n - 1);
    let at = fat_offset(slices, i);
    lemma_fat_offset(slices, n - 1, n);
    lemma_fat_offset(slices, i, n - 1);
    if n > 1 {
        lemma_fat_slices(
            head,
            slices,
            n - 1,
            if i < n - 1 {
                i
            } else {
                0
            },
        );
        lemma_fat_offset(slices, n - 2, n - 1);
    }
    assert(before.len() <= fat_offset(slices, n - 1));
    let padded = resized(before, fat_offset(slices, n - 1));
    assert(padded.len() == fat_offset(slices, n - 1));
    if i < n - 1 {
        lemma_fat_offset(slices, i, n - 2);
        assert(fat_slices(head, slices, n).subrange(at, at + slices[i].len()) =~= before.subrange(
            at,
            at + slices[i].len(),
        ));
    } else {
        assert(fat_slices(head, slices, n).subrange(at, at + slices[i].len()) =~= slices[i]);
        assert(at % PAGE_SIZE as int == 0) by {
            reveal_with_fuel(fat_offset, 2);
        }
    }
}

} // verus!
