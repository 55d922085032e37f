//! What a Mach-O stub is, by its own header and load commands.

use vstd::prelude::*;
use crate::bytes::{
    align_int, be32, group_field_len, le16, le32, le64, lemma_align_int, resized, u16_at, u32_at,
    u64_at,
};
use super::elf::string_table;
use super::elf_laws::{lemma_u16_in, lemma_u32_in, lemma_u64_in};
use super::macho::{
    cpu_of, fat_entries, fat_of, fat_offset, fat_slices, law_fat_binary_holds_its_slices,
    linkedit_name, macho_slice_of, macho_symbol, macho_symbols, segment_command, slice_head,
    slice_layout, slice_tables, slice_versions, text_name, PAGE_SIZE,
};
use super::Arch;

verus! {

/// The CPU type and subtype of an architecture.
pub open spec fn cpu_numbers(arch: Arch) -> (u32, u32) {
    match arch {
        Arch::Arm64 => (0x0100_000c, 0),
        Arch::X86_64 => (0x0100_0007, 3),
    }
}

/// Whether a segment command stands at an offset: without sections, and with a name, an address range
/// and a file range.
pub open spec fn is_segment(
    slice: Seq<u8>,
    at: int,
    name: Seq<u8>,
    vmaddr: int,
    fileoff: int,
    filesize: int,
    prot: u32,
) -> bool {
    &&& u32_at(slice, at) == 0x19
    &&& u32_at(slice, at + 4) == 72
    &&& slice.subrange(at + 8, at + 24) == name
    &&& u64_at(slice, at + 24) == vmaddr
    &&& u64_at(slice, at + 32) >= filesize
    &&& u64_at(slice, at + 32) % 0x4000 == 0
    &&& u64_at(slice, at + 40) == fileoff
    &&& u64_at(slice, at + 48) == filesize
    &&& u32_at(slice, at + 56) == prot
    &&& u32_at(slice, at + 60) == prot
    &&& u32_at(slice, at + 64) == 0
}

proof fn lemma_segment(
    slice: Seq<u8>,
    at: int,
    name: Seq<u8>,
    vmaddr: u64,
    vmsize: u64,
    fileoff: u64,
    filesize: u64,
    prot: u32,
)
    requires
        0 <= at,
        at + 72 <= slice.len(),
        name.len() == 16,
        vmsize >= filesize,
        vmsize % 0x4000 == 0,
        slice.subrange(at, at + 72) == segment_command(
            name,
            vmaddr,
            vmsize,
            fileoff,
            filesize,
            prot,
        ),
    ensures
        is_segment(slice, at, name, vmaddr as int, fileoff as int, filesize as int, prot),
{
    broadcast use group_field_len;

    let b = segment_command(name, vmaddr, vmsize, fileoff, filesize, prot);
    assert(b.len() == 72);
    assert(b.subrange(0, 4) =~= le32(0x19));
    lemma_u32_in(slice, b, at, 0, 0x19);
    assert(b.subrange(4, 8) =~= le32(72));
    lemma_u32_in(slice, b, at, 4, 72);
    assert(b.subrange(8, 24) =~= name);
    assert(slice.subrange(at + 8, at + 24) =~= b.subrange(8, 24));
    assert(b.subrange(24, 32) =~= le64(vmaddr));
    lemma_u64_in(slice, b, at, 24, vmaddr);
    assert(b.subrange(32, 40) =~= le64(vmsize));
    lemma_u64_in(slice, b, at, 32, vmsize);
    assert(b.subrange(40, 48) =~= le64(fileoff));
    lemma_u64_in(slice, b, at, 40, fileoff);
    assert(b.subrange(48, 56) =~= le64(filesize));
    lemma_u64_in(slice, b, at, 48, filesize);
    assert(b.subrange(56, 60) =~= le32(prot));
    lemma_u32_in(slice, b, at, 56, prot);
    assert(b.subrange(60, 64) =~= le32(prot));
    lemma_u32_in(slice, b, at, 60, prot);
    assert(b.subrange(64, 68) =~= le32(0));
    lemma_u32_in(slice, b, at, 64, 0);
}

spec fn header_of(arch: Arch) -> Seq<u8> {
    le32(0xfeed_facf) + le32(cpu_numbers(arch).0) + le32(cpu_numbers(arch).1) + le32(2) + le32(7)
        + le32(312) + le32(0x20_0085) + le32(0)
}

/// Whether a slice begins with the header of an executable with 7 load commands in 312 bytes.
pub open spec fn is_executable(slice: Seq<u8>, arch: Arch) -> bool {
    &&& u32_at(slice, 0) == 0xfeed_facf
    &&& u32_at(slice, 4) == cpu_numbers(arch).0
    &&& u32_at(slice, 8) == cpu_numbers(arch).1
    &&& u32_at(slice, 12) == 2
    &&& u32_at(slice, 16) == 7
    &&& u32_at(slice, 20) == 312
    &&& u32_at(slice, 24) == 0x20_0085
}

proof fn lemma_header(slice: Seq<u8>, arch: Arch)
    requires
        slice.len() >= 32,
        slice.subrange(0, 32) == header_of(arch),
    ensures
        is_executable(slice, arch),
{
    broadcast use group_field_len;

    let b = header_of(arch);
    assert(b.len() == 32);
    assert(b.subrange(0, 4) =~= le32(0xfeed_facf));
    lemma_u32_in(slice, b, 0, 0, 0xfeed_facf);
    assert(b.subrange(4, 8) =~= le32(cpu_numbers(arch).0));
    lemma_u32_in(slice, b, 0, 4, cpu_numbers(arch).0);
    assert(b.subrange(8, 12) =~= le32(cpu_numbers(arch).1));
    lemma_u32_in(slice, b, 0, 8, cpu_numbers(arch).1);
    assert(b.subrange(12, 16) =~= le32(2));
    lemma_u32_in(slice, b, 0, 12, 2);
    assert(b.subrange(16, 20) =~= le32(7));
    lemma_u32_in(slice, b, 0, 16, 7);
    assert(b.subrange(20, 24) =~= le32(312));
    lemma_u32_in(slice, b, 0, 20, 312);
    assert(b.subrange(24, 28) =~= le32(0x20_0085));
    lemma_u32_in(slice, b, 0, 24, 0x20_0085);
}

/// Whether the commands behind the segments name the exports trie, the symbols, which are all defined
/// ones that others can see, an entry point, and the platform.
pub open spec fn has_commands(
    slice: Seq<u8>,
    trie: int,
    symbols: int,
    strings: int,
    platform: u32,
    min_os: u32,
) -> bool {
    &&& u32_at(slice, 176) == 0x8000_0033
    &&& u32_at(slice, 180) == 16
    &&& u32_at(slice, 184) == 0x4000
    &&& u32_at(slice, 188) == trie
    &&& u32_at(slice, 192) == 2
    &&& u32_at(slice, 196) == 24
    &&& u32_at(slice, 200) >= 0x4000 + trie
    &&& u32_at(slice, 200) % 8 == 0
    &&& u32_at(slice, 204) == symbols
    &&& u32_at(slice, 208) == u32_at(slice, 200) + 16 * symbols
    &&& u32_at(slice, 212) == strings
    &&& u32_at(slice, 208) + strings == slice.len()
    &&& u32_at(slice, 216) == 0xb
    &&& u32_at(slice, 220) == 80
    &&& u32_at(slice, 224) == 0
    &&& u32_at(slice, 228) == 0
    &&& u32_at(slice, 232) == 0
    &&& u32_at(slice, 236) == symbols
    &&& u32_at(slice, 240) == symbols
    &&& u32_at(slice, 296) == 0x8000_0028
    &&& u32_at(slice, 300) == 24
    &&& u32_at(slice, 320) == 0x32
    &&& u32_at(slice, 324) == 24
    &&& u32_at(slice, 328) == platform
    &&& u32_at(slice, 332) == min_os
}

proof fn lemma_tables(slice: Seq<u8>, trie: int, symtab: int, strtab: int)
    requires
        slice.len() >= 344,
        0 <= trie,
        0 <= symtab,
        symtab % 16 == 0,
        0 <= strtab,
        slice_layout(trie, symtab, strtab).size <= u32::MAX,
        slice.subrange(176, 296) == slice_tables(trie, symtab, strtab),
    ensures
        ({
            let layout = slice_layout(trie, symtab, strtab);
            &&& u32_at(slice, 176) == 0x8000_0033
            &&& u32_at(slice, 180) == 16
            &&& u32_at(slice, 184) == 0x4000
            &&& u32_at(slice, 188) == trie
            &&& u32_at(slice, 192) == 2
            &&& u32_at(slice, 196) == 24
            &&& u32_at(slice, 200) == layout.symtab_off
            &&& u32_at(slice, 204) == symtab / 16
            &&& u32_at(slice, 208) == layout.strtab_off
            &&& u32_at(slice, 212) == strtab
            &&& u32_at(slice, 216) == 0xb
            &&& u32_at(slice, 220) == 80
            &&& u32_at(slice, 224) == 0
            &&& u32_at(slice, 228) == 0
            &&& u32_at(slice, 232) == 0
            &&& u32_at(slice, 236) == symtab / 16
            &&& u32_at(slice, 240) == symtab / 16
        }),
{
    broadcast use group_field_len;

    let b = slice_tables(trie, symtab, strtab);
    let layout = slice_layout(trie, symtab, strtab);
    let n = (symtab / 16) as u32;
    lemma_align_int(PAGE_SIZE + trie, 8);
    assert(b.len() == 120);
    assert(b.subrange(0, 4) =~= le32(0x8000_0033));
    lemma_u32_in(slice, b, 176, 0, 0x8000_0033);
    assert(b.subrange(4, 8) =~= le32(16));
    lemma_u32_in(slice, b, 176, 4, 16);
    assert(b.subrange(8, 12) =~= le32(0x4000));
    lemma_u32_in(slice, b, 176, 8, 0x4000);
    assert(b.subrange(12, 16) =~= le32(trie as u32));
    lemma_u32_in(slice, b, 176, 12, trie as u32);
    assert(b.subrange(16, 20) =~= le32(2));
    lemma_u32_in(slice, b, 176, 16, 2);
    assert(b.subrange(20, 24) =~= le32(24));
    lemma_u32_in(slice, b, 176, 20, 24);
    assert(b.subrange(24, 28) =~= le32(layout.symtab_off as u32));
    lemma_u32_in(slice, b, 176, 24, layout.symtab_off as u32);
    assert(b.subrange(28, 32) =~= le32(n));
    lemma_u32_in(slice, b, 176, 28, n);
    assert(b.subrange(32, 36) =~= le32(layout.strtab_off as u32));
    lemma_u32_in(slice, b, 176, 32, layout.strtab_off as u32);
    assert(b.subrange(36, 40) =~= le32(strtab as u32));
    lemma_u32_in(slice, b, 176, 36, strtab as u32);
    assert(b.subrange(40, 44) =~= le32(0xb));
    lemma_u32_in(slice, b, 176, 40, 0xb);
    assert(b.subrange(44, 48) =~= le32(80));
    lemma_u32_in(slice, b, 176, 44, 80);
    assert(b.subrange(48, 52) =~= le32(0));
    lemma_u32_in(slice, b, 176, 48, 0);
    assert(b.subrange(52, 56) =~= le32(0));
    lemma_u32_in(slice, b, 176, 52, 0);
    assert(b.subrange(56, 60) =~= le32(0));
    lemma_u32_in(slice, b, 176, 56, 0);
    assert(b.subrange(60, 64) =~= le32(n));
    lemma_u32_in(slice, b, 176, 60, n);
    assert(b.subrange(64, 68) =~= le32(n));
    lemma_u32_in(slice, b, 176, 64, n);
}

proof fn lemma_versions(slice: Seq<u8>, platform: u32, min_os: u32)
    requires
        slice.len() >= 344,
        slice.subrange(296, 344) == slice_versions(platform, min_os),
    ensures
        u32_at(slice, 296) == 0x8000_0028,
        u32_at(slice, 300) == 24,
        u32_at(slice, 320) == 0x32,
        u32_at(slice, 324) == 24,
        u32_at(slice, 328) == platform,
        u32_at(slice, 332) == min_os,
{
    broadcast use group_field_len;

    let b = slice_versions(platform, min_os);
    assert(b.len() == 48);
    assert(b.subrange(0, 4) =~= le32(0x8000_0028));
    lemma_u32_in(slice, b, 296, 0, 0x8000_0028);
    assert(b.subrange(4, 8) =~= le32(24));
    lemma_u32_in(slice, b, 296, 4, 24);
    assert(b.subrange(24, 28) =~= le32(0x32));
    lemma_u32_in(slice, b, 296, 24, 0x32);
    assert(b.subrange(28, 32) =~= le32(24));
    lemma_u32_in(slice, b, 296, 28, 24);
    assert(b.subrange(32, 36) =~= le32(platform));
    lemma_u32_in(slice, b, 296, 32, platform);
    assert(b.subrange(36, 40) =~= le32(min_os));
    lemma_u32_in(slice, b, 296, 36, min_os);
}

/// `__TEXT` and `__LINKEDIT`.
pub open spec fn text() -> Seq<u8> {
    seq![0x5f, 0x5f, 0x54, 0x45, 0x58, 0x54, 0, 0, 0, 0, 0, 0, 0, 0, 0, 0]
}

pub open spec fn linkedit() -> Seq<u8> {
    seq![0x5f, 0x5f, 0x4c, 0x49, 0x4e, 0x4b, 0x45, 0x44, 0x49, 0x54, 0, 0, 0, 0, 0, 0]
}

/// The parts of a slice.
proof fn lemma_parts(
    arch: Arch,
    platform: u32,
    min_os: u32,
    trie: Seq<u8>,
    symtab: Seq<u8>,
    strtab: Seq<u8>,
)
    ensures
        ({
            let layout = slice_layout(trie.len() as int, symtab.len() as int, strtab.len() as int);
            let slice = macho_slice_of(arch, platform, min_os, trie, symtab, strtab);
            &&& slice.len() == layout.size
            &&& layout.size >= 0x4000
            &&& slice.subrange(0, 32) == header_of(arch)
            &&& slice.subrange(32, 104) == segment_command(
                text(),
                0x1_0000_0000,
                0x4000,
                0,
                0x4000,
                5,
            )
            &&& slice.subrange(104, 176) == segment_command(
                linkedit(),
                0x1_0000_4000,
                align_int(layout.size - 0x4000, 0x4000) as u64,
                0x4000,
                (layout.size - 0x4000) as u64,
                1,
            )
            &&& slice.subrange(176, 296) == slice_tables(
                trie.len() as int,
                symtab.len() as int,
                strtab.len() as int,
            )
            &&& slice.subrange(296, 344) == slice_versions(platform, min_os)
        }),
{
    broadcast use group_field_len;

    let layout = slice_layout(trie.len() as int, symtab.len() as int, strtab.len() as int);
    lemma_align_int(PAGE_SIZE + trie.len(), 8);
    let head = slice_head(arch, layout.size - PAGE_SIZE);
    let tables = slice_tables(trie.len() as int, symtab.len() as int, strtab.len() as int);
    let versions = slice_versions(platform, min_os);
    assert(text_name() =~= text());
    assert(linkedit_name() =~= linkedit());
    assert(head.len() == 176);
    assert(tables.len() == 120);
    assert(versions.len() == 48);
    let commands = head + tables + versions;
    let padded = resized(commands, PAGE_SIZE as int);
    let with_trie = resized(padded + trie, layout.symtab_off);
    let slice = macho_slice_of(arch, platform, min_os, trie, symtab, strtab);
    assert(with_trie.len() == layout.symtab_off);
    assert(padded.subrange(0, 344) =~= commands);
    assert(slice.subrange(0, 344) =~= commands);
    assert(commands.subrange(0, 176) =~= head);
    assert(slice.subrange(176, 296) =~= commands.subrange(176, 296));
    assert(commands.subrange(176, 296) =~= tables);
    assert(slice.subrange(296, 344) =~= commands.subrange(296, 344));
    assert(commands.subrange(296, 344) =~= versions);
    lemma_head(arch, layout.size - 0x4000);
    assert(slice.subrange(0, 32) =~= commands.subrange(0, 176).subrange(0, 32));
    assert(slice.subrange(32, 104) =~= commands.subrange(0, 176).subrange(32, 104));
    assert(slice.subrange(104, 176) =~= commands.subrange(0, 176).subrange(104, 176));
}

proof fn lemma_head(arch: Arch, size: int)
    ensures
        ({
            let head = slice_head(arch, size);
            &&& head.subrange(0, 32) == header_of(arch)
            &&& head.subrange(32, 104) == segment_command(
                text(),
                0x1_0000_0000,
                0x4000,
                0,
                0x4000,
                5,
            )
            &&& head.subrange(104, 176) == segment_command(
                linkedit(),
                0x1_0000_4000,
                align_int(size, 0x4000) as u64,
                0x4000,
                size as u64,
                1,
            )
        }),
{
    broadcast use group_field_len;

    let head = slice_head(arch, size);
    assert(text_name() =~= text());
    assert(linkedit_name() =~= linkedit());
    assert(cpu_of(arch) == cpu_numbers(arch));
    assert(head.subrange(0, 32) =~= header_of(arch));
    assert(head.subrange(32, 104) =~= segment_command(text(), 0x1_0000_0000, 0x4000, 0, 0x4000, 5));
    assert(head.subrange(104, 176) =~= segment_command(
        linkedit(),
        0x1_0000_4000,
        align_int(size, 0x4000) as u64,
        0x4000,
        size as u64,
        1,
    ));
}

/// A slice is an executable of its architecture. `__TEXT` is its first page, and `__LINKEDIT` everything
/// behind it. The commands name the tables, which fill the rest of the slice, and the platform.
pub proof fn law_slice_is_an_executable(
    arch: Arch,
    platform: u32,
    min_os: u32,
    trie: Seq<u8>,
    symtab: Seq<u8>,
    strtab: Seq<u8>,
)
    requires
        slice_layout(trie.len() as int, symtab.len() as int, strtab.len() as int).size <= u32::MAX,
        symtab.len() % 16 == 0,
    ensures
        ({
            let slice = macho_slice_of(arch, platform, min_os, trie, symtab, strtab);
            &&& is_executable(slice, arch)
            &&& is_segment(slice, 32, text(), 0x1_0000_0000, 0, 0x4000, 5)
            &&& is_segment(
                slice,
                104,
                linkedit(),
                0x1_0000_4000,
                0x4000,
                slice.len() - 0x4000,
                1,
            )
            &&& has_commands(
                slice,
                trie.len() as int,
                symtab.len() as int / 16,
                strtab.len() as int,
                platform,
                min_os,
            )
        }),
{
    let layout = slice_layout(trie.len() as int, symtab.len() as int, strtab.len() as int);
    let slice = macho_slice_of(arch, platform, min_os, trie, symtab, strtab);
    lemma_align_int(PAGE_SIZE + trie.len(), 8);
    lemma_parts(arch, platform, min_os, trie, symtab, strtab);
    lemma_header(slice, arch);
    let size = layout.size - 0x4000;
    lemma_align_int(size, 0x4000);
    lemma_segment(slice, 32, text(), 0x1_0000_0000, 0x4000, 0, 0x4000, 5);
    lemma_segment(
        slice,
        104,
        linkedit(),
        0x1_0000_4000,
        align_int(size, 0x4000) as u64,
        0x4000,
        size as u64,
        1,
    );
    lemma_tables(slice, trie.len() as int, symtab.len() as int, strtab.len() as int);
    lemma_versions(slice, platform, min_os);
}

/// Each name has a symbol of 16 bytes: where the name stands among the strings, and that it is an
/// absolute symbol that others can see, at the address of the image.
pub proof fn law_names_have_symbols(names: Seq<Seq<u8>>, i: int)
    requires
        0 <= i < names.len(),
        string_table(names).len() <= u32::MAX,
    ensures
        ({
            let symbols = macho_symbols(names);
            let strings = string_table(names);
            let name = u32_at(symbols, 16 * i) as int;
            &&& symbols.len() == 16 * names.len()
            &&& name + names[i].len() < strings.len()
            &&& strings.subrange(name, name + names[i].len()) == names[i]
            &&& strings[name + names[i].len()] == 0
            &&& symbols[16 * i + 4] == 3
            &&& symbols[16 * i + 5] == 0
            &&& u16_at(symbols, 16 * i + 6) == 0
            &&& u64_at(symbols, 16 * i + 8) == 0x1_0000_0000
        }),
    decreases names.len(),
{
    broadcast use group_field_len;

    let rest = names.drop_last();
    let front = macho_symbols(rest);
    let all = macho_symbols(names);
    let strings = string_table(names);
    let before = string_table(rest);
    let b = macho_symbol(before.len() as u32);
    lemma_symbols_len(rest);
    assert(b.len() == 16);
    let n = 16 * rest.len() as int;
    if i == names.len() - 1 {
        assert(all.subrange(n, n + 16) =~= b);
        assert(b.subrange(0, 4) =~= le32(before.len() as u32));
        lemma_u32_in(all, b, n, 0, before.len() as u32);
        assert(b.subrange(6, 8) =~= le16(0));
        lemma_u16_in(all, b, n, 6, 0);
        assert(b.subrange(8, 16) =~= le64(0x1_0000_0000));
        lemma_u64_in(all, b, n, 8, 0x1_0000_0000);
        assert(all[n + 4] == b[4] && all[n + 5] == b[5]);
        let at = before.len() as int;
        assert(strings.subrange(at, at + names[i].len()) =~= names[i]);
    } else {
        law_names_have_symbols(rest, i);
        let name = u32_at(front, 16 * i) as int;
        assert(front.subrange(16 * i, 16 * i + 16) =~= all.subrange(16 * i, 16 * i + 16));
        let part = all.subrange(16 * i, 16 * i + 16);
        assert(all.subrange(16 * i, 16 * i + 4) =~= part.subrange(0, 4));
        assert(front.subrange(16 * i, 16 * i + 4) =~= part.subrange(0, 4));
        crate::bytes::lemma_u32_at_same(all, 16 * i, front, 16 * i);
        assert(all.subrange(16 * i + 6, 16 * i + 8) =~= front.subrange(16 * i + 6, 16 * i + 8));
        crate::bytes::lemma_u16_at_same(all, 16 * i + 6, front, 16 * i + 6);
        assert(all.subrange(16 * i + 8, 16 * i + 16) =~= front.subrange(16 * i + 8, 16 * i + 16));
        crate::bytes::lemma_u64_at_same(all, 16 * i + 8, front, 16 * i + 8);
        assert(strings.subrange(name, name + names[i].len()) =~= before.subrange(
            name,
            name + names[i].len(),
        ));
    }
}

proof fn lemma_symbols_len(names: Seq<Seq<u8>>)
    ensures
        macho_symbols(names).len() == 16 * names.len(),
    decreases names.len(),
{
    broadcast use group_field_len;

    if names.len() > 0 {
        lemma_symbols_len(names.drop_last());
    }
}

/// The big-endian number at an offset.
pub open spec fn big_at(s: Seq<u8>, off: int) -> int {
    0x100_0000 * s[off] + 0x1_0000 * s[off + 1] + 0x100 * s[off + 2] + s[off + 3]
}

proof fn lemma_big(s: Seq<u8>, off: int, v: u32)
    requires
        0 <= off,
        off + 4 <= s.len(),
        s.subrange(off, off + 4) == be32(v),
    ensures
        big_at(s, off) == v,
{
    reveal(be32);
    let b = s.subrange(off, off + 4);
    assert(b[0] == s[off] && b[1] == s[off + 1] && b[2] == s[off + 2] && b[3] == s[off + 3]);
}

/// Whether the entry of a slice stands at an offset: the CPU, where the slice is and how long it is, and
/// that it is aligned to pages of 16 KiB.
pub open spec fn is_fat_entry(
    data: Seq<u8>,
    at: int,
    arch: Arch,
    offset: int,
    size: int,
) -> bool {
    &&& big_at(data, at) == cpu_numbers(arch).0
    &&& big_at(data, at + 4) == cpu_numbers(arch).1
    &&& big_at(data, at + 8) == offset
    &&& big_at(data, at + 12) == size
    &&& big_at(data, at + 16) == 14
}

proof fn lemma_fat_entry(arches: Seq<Arch>, slices: Seq<Seq<u8>>, n: int, i: int)
    requires
        0 <= i < n,
    ensures
        fat_entries(arches, slices, n).len() == 20 * n,
        fat_entries(arches, slices, n).subrange(20 * i, 20 * i + 20) == be32(cpu_of(arches[i]).0)
            + be32(cpu_of(arches[i]).1) + be32(fat_offset(slices, i) as u32) + be32(
            slices[i].len() as u32,
        ) + be32(14),
    decreases n,
{
    broadcast use group_field_len;

    let all = fat_entries(arches, slices, n);
    let front = fat_entries(arches, slices, n - 1);
    if i < n - 1 {
        lemma_fat_entry(arches, slices, n - 1, i);
        assert(all.subrange(20 * i, 20 * i + 20) =~= front.subrange(20 * i, 20 * i + 20));
    } else {
        if n > 1 {
            lemma_fat_entry(arches, slices, n - 1, 0);
        }
        assert(front.len() == 20 * (n - 1));
        assert(all.subrange(20 * i, 20 * i + 20) =~= be32(cpu_of(arches[i]).0) + be32(
            cpu_of(arches[i]).1,
        ) + be32(fat_offset(slices, i) as u32) + be32(slices[i].len() as u32) + be32(14));
    }
}

proof fn lemma_fat_head(head: Seq<u8>, slices: Seq<Seq<u8>>, n: int)
    requires
        0 <= n <= slices.len(),
        head.len() <= 0x4000,
    ensures
        fat_slices(head, slices, n).len() >= head.len(),
        fat_slices(head, slices, n).subrange(0, head.len() as int) == head,
        n > 0 ==> fat_slices(head, slices, n).len() >= 0x4000,
        fat_offset(slices, n) >= 0x4000,
    decreases n,
{
    if n > 0 {
        lemma_fat_head(head, slices, n - 1);
        let before = fat_slices(head, slices, n - 1);
        let all = fat_slices(head, slices, n);
        lemma_align_int(fat_offset(slices, n - 1) + slices[n - 1].len(), 0x4000);
        let padded = resized(before, fat_offset(slices, n - 1));
        assert(padded.len() == fat_offset(slices, n - 1));
        assert(padded.subrange(0, head.len() as int) =~= before.subrange(0, head.len() as int));
        assert(all.subrange(0, head.len() as int) =~= padded.subrange(0, head.len() as int));
    } else {
        assert(head.subrange(0, head.len() as int) =~= head);
    }
}

/// A universal binary begins with its magic number and how many slices it has, and has an entry for each
/// of them that says where it stands.
pub proof fn law_fat_binary_lists_its_slices(arches: Seq<Arch>, slices: Seq<Seq<u8>>, i: int)
    requires
        arches.len() == slices.len(),
        0 <= i < slices.len(),
        8 + 20 * slices.len() <= 0x4000,
        fat_offset(slices, i) + slices[i].len() <= u32::MAX,
    ensures
        ({
            let data = fat_of(arches, slices);
            let offset = big_at(data, 8 + 20 * i + 8);
            let size = big_at(data, 8 + 20 * i + 12);
            &&& big_at(data, 0) == 0xcafe_babe
            &&& big_at(data, 4) == slices.len()
            &&& is_fat_entry(data, 8 + 20 * i, arches[i], offset, slices[i].len() as int)
            &&& offset % 0x4000 == 0
            &&& data.subrange(offset, offset + size) == slices[i]
        }),
{
    broadcast use group_field_len;

    let n = slices.len() as int;
    let data = fat_of(arches, slices);
    let entries = fat_entries(arches, slices, n);
    let head = be32(0xcafe_babe) + be32(slices.len() as u32) + entries;
    law_fat_binary_holds_its_slices(arches, slices, i);
    lemma_fat_entry(arches, slices, n, i);
    lemma_fat_head(head, slices, n);
    lemma_fat_head(head, slices, i);
    assert(cpu_of(arches[i]) == cpu_numbers(arches[i]));
    let b = entries.subrange(20 * i, 20 * i + 20);
    let at = 8 + 20 * i;
    assert(data.subrange(0, head.len() as int) == head);
    assert(data.subrange(0, 4) =~= head.subrange(0, 4));
    assert(head.subrange(0, 4) =~= be32(0xcafe_babe));
    lemma_big(data, 0, 0xcafe_babe);
    assert(data.subrange(4, 8) =~= head.subrange(4, 8));
    assert(head.subrange(4, 8) =~= be32(slices.len() as u32));
    lemma_big(data, 4, slices.len() as u32);
    assert(head.subrange(at, at + 20) =~= b);
    assert(data.subrange(at, at + 20) =~= head.subrange(at, at + 20));
    assert(data.subrange(at, at + 4) =~= b.subrange(0, 4));
    assert(b.subrange(0, 4) =~= be32(cpu_of(arches[i]).0));
    lemma_big(data, at, cpu_of(arches[i]).0);
    assert(data.subrange(at + 4, at + 8) =~= b.subrange(4, 8));
    assert(b.subrange(4, 8) =~= be32(cpu_of(arches[i]).1));
    lemma_big(data, at + 4, cpu_of(arches[i]).1);
    assert(data.subrange(at + 8, at + 12) =~= b.subrange(8, 12));
    assert(b.subrange(8, 12) =~= be32(fat_offset(slices, i) as u32));
    lemma_big(data, at + 8, fat_offset(slices, i) as u32);
    assert(data.subrange(at + 12, at + 16) =~= b.subrange(12, 16));
    assert(b.subrange(12, 16) =~= be32(slices[i].len() as u32));
    lemma_big(data, at + 12, slices[i].len() as u32);
    assert(data.subrange(at + 16, at + 20) =~= b.subrange(16, 20));
    assert(b.subrange(16, 20) =~= be32(14));
    lemma_big(data, at + 16, 14);
}

} // verus!
