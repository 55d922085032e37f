//! What a reader finds in an ELF stub.

use vstd::prelude::*;
use vstd::utf8::*;
use crate::bytes::{
    group_field_len, le16, le32, le64, lemma_align_int, lemma_u16_at_le, lemma_u32_at_le,
    lemma_u64_at_le, resized, u16_at, u32_at, u64_at, zeros,
};
use crate::util::embed::elf::{phdr_bytes, PT_LOAD, SHF_ALLOC};
use super::elf::{
    dynamic_section, elf_stub_of, elf_stub_size, elf_symbol, elf_symbols, lemma_elf_symbols,
    lemma_string_table, lemma_stub_tables, name_offset, section_names, shdr_bytes, string_table,
    stub_header, stub_layout, stub_sections, SectionHeader, DYNENT, DYNSYM_OFF, DYN_SIZE,
    PT_DYNAMIC, SHSTRTAB_SIZE, SHT_DYNAMIC, SHT_DYNSYM, SHT_STRTAB, SYMENT,
};
use super::{elf_machine, is_elf_result, one_arch, Arch, StubError};

verus! {

/// Where the header of a section stands, by the file header.
pub open spec fn section_header(out: Seq<u8>, i: int) -> int {
    u64_at(out, 40) + 64 * i
}

/// Where a section stands in the file.
pub open spec fn section_offset(out: Seq<u8>, i: int) -> int {
    u64_at(out, section_header(out, i) + 24) as int
}

/// How long a section is.
pub open spec fn section_size(out: Seq<u8>, i: int) -> int {
    u64_at(out, section_header(out, i) + 32) as int
}

/// Whether a string stands at a place, with a zero byte behind it.
pub open spec fn has_string(out: Seq<u8>, at: int, text: Seq<u8>) -> bool {
    0 <= at && at + text.len() + 1 <= out.len() && out.subrange(at, at + text.len() + 1) == text
        + seq![0u8]
}

/// Whether the name of a section is found in the section names, which the file header names.
pub open spec fn is_section_named(out: Seq<u8>, i: int, text: Seq<u8>) -> bool {
    has_string(
        out,
        section_offset(out, u16_at(out, 62) as int) + u32_at(out, section_header(out, i)),
        text,
    )
}

pub(crate) proof fn lemma_u16_in(s: Seq<u8>, part: Seq<u8>, at: int, field: int, v: u16)
    requires
        0 <= at,
        at + part.len() <= s.len(),
        s.subrange(at, at + part.len()) == part,
        0 <= field,
        field + 2 <= part.len(),
        part.subrange(field, field + 2) =~= le16(v),
    ensures
        u16_at(s, at + field) == v,
{
    assert(s.subrange(at + field, at + field + 2) =~= s.subrange(at, at + part.len()).subrange(
        field,
        field + 2,
    ));
    lemma_u16_at_le(s, at + field, v);
}

pub(crate) proof fn lemma_u32_in(s: Seq<u8>, part: Seq<u8>, at: int, field: int, v: u32)
    requires
        0 <= at,
        at + part.len() <= s.len(),
        s.subrange(at, at + part.len()) == part,
        0 <= field,
        field + 4 <= part.len(),
        part.subrange(field, field + 4) =~= le32(v),
    ensures
        u32_at(s, at + field) == v,
{
    assert(s.subrange(at + field, at + field + 4) =~= s.subrange(at, at + part.len()).subrange(
        field,
        field + 4,
    ));
    lemma_u32_at_le(s, at + field, v);
}

pub(crate) proof fn lemma_u64_in(s: Seq<u8>, part: Seq<u8>, at: int, field: int, v: u64)
    requires
        0 <= at,
        at + part.len() <= s.len(),
        s.subrange(at, at + part.len()) == part,
        0 <= field,
        field + 8 <= part.len(),
        part.subrange(field, field + 8) =~= le64(v),
    ensures
        u64_at(s, at + field) == v,
{
    assert(s.subrange(at + field, at + field + 8) =~= s.subrange(at, at + part.len()).subrange(
        field,
        field + 8,
    ));
    lemma_u64_at_le(s, at + field, v);
}

/// What the file header holds.
proof fn lemma_file_header(out: Seq<u8>, machine: u16, shoff: u64)
    requires
        64 <= out.len(),
        out.subrange(0, 64) == stub_header(machine, shoff),
    ensures
        out.subrange(0, 16) == seq![
            0x7fu8, 0x45, 0x4c, 0x46, 2, 1, 1, 0, 0, 0, 0, 0, 0, 0, 0, 0,
        ],
        u16_at(out, 16) == 3,
        u16_at(out, 18) == machine,
        u32_at(out, 20) == 1,
        u64_at(out, 24) == 0,
        u64_at(out, 32) == 64,
        u64_at(out, 40) == shoff,
        u32_at(out, 48) == 0,
        u16_at(out, 52) == 64,
        u16_at(out, 54) == 56,
        u16_at(out, 56) == 2,
        u16_at(out, 58) == 64,
        u16_at(out, 60) == 5,
        u16_at(out, 62) == 4,
{
    broadcast use group_field_len;

    let h = stub_header(machine, shoff);
    assert(h.len() == 64);
    assert(out.subrange(0, 16) =~= h.subrange(0, 16)) by {
        assert forall|i: int| 0 <= i < 16 implies out.subrange(0, 16)[i] == h.subrange(
            0,
            16,
        )[i] by {
            assert(out.subrange(0, 64)[i] == h[i]);
        }
    }
    assert(h.subrange(0, 16) =~= seq![
        0x7fu8, 0x45, 0x4c, 0x46, 2, 1, 1, 0, 0, 0, 0, 0, 0, 0, 0, 0,
    ]);
    lemma_u16_in(out, h, 0, 16, 3);
    lemma_u16_in(out, h, 0, 18, machine);
    lemma_u32_in(out, h, 0, 20, 1);
    lemma_u64_in(out, h, 0, 24, 0);
    lemma_u64_in(out, h, 0, 32, 64);
    lemma_u64_in(out, h, 0, 40, shoff);
    lemma_u32_in(out, h, 0, 48, 0);
    lemma_u16_in(out, h, 0, 52, 64);
    lemma_u16_in(out, h, 0, 54, 56);
    lemma_u16_in(out, h, 0, 56, 2);
    lemma_u16_in(out, h, 0, 58, 64);
    lemma_u16_in(out, h, 0, 60, 5);
    lemma_u16_in(out, h, 0, 62, 4);
}

/// What a program header holds.
proof fn lemma_program_header(out: Seq<u8>, at: int, kind: u32, offset: u64, size: u64, align: u64)
    requires
        0 <= at,
        at + 56 <= out.len(),
        out.subrange(at, at + 56) == phdr_bytes(kind, offset, size, align),
    ensures
        u32_at(out, at) == kind,
        u32_at(out, at + 4) == 4,
        u64_at(out, at + 8) == offset,
        u64_at(out, at + 16) == offset,
        u64_at(out, at + 24) == offset,
        u64_at(out, at + 32) == size,
        u64_at(out, at + 40) == size,
        u64_at(out, at + 48) == align,
{
    broadcast use group_field_len;

    let h = phdr_bytes(kind, offset, size, align);
    assert(h.len() == 56);
    lemma_u32_in(out, h, at, 0, kind);
    lemma_u32_in(out, h, at, 4, 4);
    lemma_u64_in(out, h, at, 8, offset);
    lemma_u64_in(out, h, at, 16, offset);
    lemma_u64_in(out, h, at, 24, offset);
    lemma_u64_in(out, h, at, 32, size);
    lemma_u64_in(out, h, at, 40, size);
    lemma_u64_in(out, h, at, 48, align);
}

/// What a section header holds.
proof fn lemma_section_header(out: Seq<u8>, at: int, h: SectionHeader)
    requires
        0 <= at,
        at + 64 <= out.len(),
        out.subrange(at, at + 64) == shdr_bytes(h),
    ensures
        u32_at(out, at) == h.name,
        u32_at(out, at + 4) == h.kind,
        u64_at(out, at + 8) == h.flags,
        u64_at(out, at + 16) == h.addr,
        u64_at(out, at + 24) == h.offset,
        u64_at(out, at + 32) == h.size,
        u32_at(out, at + 40) == h.link,
        u32_at(out, at + 44) == h.info,
        u64_at(out, at + 48) == h.align,
        u64_at(out, at + 56) == h.entsize,
{
    broadcast use group_field_len;

    let b = shdr_bytes(h);
    assert(b.len() == 64);
    lemma_u32_in(out, b, at, 0, h.name);
    lemma_u32_in(out, b, at, 4, h.kind);
    lemma_u64_in(out, b, at, 8, h.flags);
    lemma_u64_in(out, b, at, 16, h.addr);
    lemma_u64_in(out, b, at, 24, h.offset);
    lemma_u64_in(out, b, at, 32, h.size);
    lemma_u32_in(out, b, at, 40, h.link);
    lemma_u32_in(out, b, at, 44, h.info);
    lemma_u64_in(out, b, at, 48, h.align);
    lemma_u64_in(out, b, at, 56, h.entsize);
}

/// What the dynamic section holds.
proof fn lemma_dynamic(out: Seq<u8>, at: int, soname: u32, dynstr_off: u64, dynstr_len: u64)
    requires
        0 <= at,
        at + 96 <= out.len(),
        out.subrange(at, at + 96) == dynamic_section(soname, dynstr_off, dynstr_len),
    ensures
        u64_at(out, at) == 14,
        u64_at(out, at + 8) == soname,
        u64_at(out, at + 16) == 6,
        u64_at(out, at + 24) == 176,
        u64_at(out, at + 32) == 11,
        u64_at(out, at + 40) == 24,
        u64_at(out, at + 48) == 5,
        u64_at(out, at + 56) == dynstr_off,
        u64_at(out, at + 64) == 10,
        u64_at(out, at + 72) == dynstr_len,
        u64_at(out, at + 80) == 0,
        u64_at(out, at + 88) == 0,
{
    broadcast use group_field_len;

    let d = dynamic_section(soname, dynstr_off, dynstr_len);
    assert(d.len() == 96);
    lemma_u64_in(out, d, at, 0, 14);
    lemma_u64_in(out, d, at, 8, soname as u64);
    lemma_u64_in(out, d, at, 16, 6);
    lemma_u64_in(out, d, at, 24, 176);
    lemma_u64_in(out, d, at, 32, 11);
    lemma_u64_in(out, d, at, 40, 24);
    lemma_u64_in(out, d, at, 48, 5);
    lemma_u64_in(out, d, at, 56, dynstr_off);
    lemma_u64_in(out, d, at, 64, 10);
    lemma_u64_in(out, d, at, 72, dynstr_len);
    lemma_u64_in(out, d, at, 80, 0);
    lemma_u64_in(out, d, at, 88, 0);
}

/// Where the headers and the section names stand.
proof fn lemma_stub_headers(names: Seq<Seq<u8>>, soname: Seq<u8>, machine: u16)
    ensures
        ({
            let out = elf_stub_of(names, soname, machine);
            let dynsym = elf_symbols(names);
            let dynstr = string_table(names.push(soname));
            let layout = stub_layout(dynsym.len() as int, dynstr.len() as int);
            &&& out.len() == layout.shoff + 320
            &&& layout.shstrtab_off + 36 <= layout.shoff
            &&& 176 + dynsym.len() + dynstr.len() <= layout.dyn_off
            &&& out.subrange(0, 64) == stub_header(machine, layout.shoff as u64)
            &&& out.subrange(64, 120) == phdr_bytes(PT_LOAD, 0, layout.shstrtab_off as u64, 0x1000)
            &&& out.subrange(120, 176) == phdr_bytes(
                PT_DYNAMIC,
                layout.dyn_off as u64,
                DYN_SIZE,
                8,
            )
            &&& out.subrange(layout.shstrtab_off, layout.shstrtab_off + 36) == section_names()
            &&& out.subrange(layout.shoff, layout.shoff + 320) == stub_sections(
                dynsym.len() as u64,
                dynstr.len() as u64,
            )
        }),
{
    broadcast use group_field_len;

    let out = elf_stub_of(names, soname, machine);
    let dynsym = elf_symbols(names);
    let dynstr = string_table(names.push(soname));
    let layout = stub_layout(dynsym.len() as int, dynstr.len() as int);
    lemma_align_int(layout.dynstr_off + dynstr.len(), 8);
    lemma_align_int(layout.shstrtab_off + 36, 8);
    let header = stub_header(machine, layout.shoff as u64);
    let load = phdr_bytes(PT_LOAD, 0, layout.shstrtab_off as u64, 0x1000);
    let dynamic_header = phdr_bytes(PT_DYNAMIC, layout.dyn_off as u64, DYN_SIZE, 8);
    assert(header.len() == 64 && load.len() == 56 && dynamic_header.len() == 56);
    let tables = header + load + dynamic_header + dynsym + dynstr;
    let dynamic = dynamic_section(
        string_table(names).len() as u32,
        layout.dynstr_off as u64,
        dynstr.len() as u64,
    );
    assert(dynamic.len() == 96);
    let loaded = resized(tables, layout.dyn_off) + dynamic;
    assert(loaded.len() == layout.shstrtab_off);
    let named = resized(loaded + section_names(), layout.shoff);
    let sections = stub_sections(dynsym.len() as u64, dynstr.len() as u64);
    assert(sections.len() == 320);
    assert(out == named + sections);
    assert(section_names().len() == 36);
    assert forall|k: int| 0 <= k < 176 implies #[trigger] out[k] == tables[k] by {
        assert(loaded[k] == tables[k]);
        assert(named[k] == loaded[k]);
    }
    assert(out.subrange(0, 64) =~= header);
    assert(out.subrange(64, 120) =~= load);
    assert(out.subrange(120, 176) =~= dynamic_header);
    assert forall|k: int| 0 <= k < 36 implies #[trigger] out[layout.shstrtab_off + k]
        == section_names()[k] by {
        assert(named[layout.shstrtab_off + k] == (loaded + section_names())[layout.shstrtab_off + k]);
    }
    assert(out.subrange(layout.shstrtab_off, layout.shstrtab_off + 36) =~= section_names());
    assert(out.subrange(layout.shoff, layout.shoff + 320) =~= sections);
}

/// What the section headers hold.
proof fn lemma_stub_sections(out: Seq<u8>, shoff: int, dynsym_len: u64, dynstr_len: u64)
    requires
        0 <= shoff,
        shoff + 320 <= out.len(),
        out.subrange(shoff, shoff + 320) == stub_sections(dynsym_len, dynstr_len),
        stub_layout(dynsym_len as int, dynstr_len as int).size <= u64::MAX,
    ensures
        ({
            let layout = stub_layout(dynsym_len as int, dynstr_len as int);
            &&& forall|k: int| 0 <= k < 64 ==> #[trigger] out[shoff + k] == 0
            &&& u32_at(out, shoff + 64) == 1 && u32_at(out, shoff + 68) == 11
            &&& u64_at(out, shoff + 72) == 2 && u64_at(out, shoff + 80) == 176
            &&& u64_at(out, shoff + 88) == 176 && u64_at(out, shoff + 96) == dynsym_len
            &&& u32_at(out, shoff + 104) == 2 && u32_at(out, shoff + 108) == 1
            &&& u64_at(out, shoff + 120) == 24
            &&& u32_at(out, shoff + 128) == 9 && u32_at(out, shoff + 132) == 3
            &&& u64_at(out, shoff + 136) == 2 && u64_at(out, shoff + 144) == layout.dynstr_off
            &&& u64_at(out, shoff + 152) == layout.dynstr_off
            &&& u64_at(out, shoff + 160) == dynstr_len
            &&& u32_at(out, shoff + 192) == 17 && u32_at(out, shoff + 196) == 6
            &&& u64_at(out, shoff + 208) == layout.dyn_off
            &&& u64_at(out, shoff + 216) == layout.dyn_off
            &&& u64_at(out, shoff + 224) == 96
            &&& u32_at(out, shoff + 232) == 2 && u64_at(out, shoff + 248) == 16
            &&& u64_at(out, shoff + 200) == 3
            &&& u32_at(out, shoff + 256) == 26 && u32_at(out, shoff + 260) == 3
            &&& u64_at(out, shoff + 264) == 0
            &&& u64_at(out, shoff + 280) == layout.shstrtab_off
            &&& u64_at(out, shoff + 288) == 36
        }),
{
    broadcast use group_field_len;

    let layout = stub_layout(dynsym_len as int, dynstr_len as int);
    lemma_align_int(layout.dynstr_off + dynstr_len, 8);
    lemma_align_int(layout.shstrtab_off + 36, 8);
    let symbols = SectionHeader {
        name: 1,
        kind: SHT_DYNSYM,
        flags: SHF_ALLOC,
        addr: DYNSYM_OFF,
        offset: DYNSYM_OFF,
        size: dynsym_len,
        link: 2,
        info: 1,
        align: 8,
        entsize: SYMENT,
    };
    let strings = SectionHeader {
        name: 9,
        kind: SHT_STRTAB,
        flags: SHF_ALLOC,
        addr: layout.dynstr_off as u64,
        offset: layout.dynstr_off as u64,
        size: dynstr_len,
        link: 0,
        info: 0,
        align: 1,
        entsize: 0,
    };
    let dynamic = SectionHeader {
        name: 17,
        kind: SHT_DYNAMIC,
        flags: 3,
        addr: layout.dyn_off as u64,
        offset: layout.dyn_off as u64,
        size: DYN_SIZE,
        link: 2,
        info: 0,
        align: 8,
        entsize: DYNENT,
    };
    let section_strings = SectionHeader {
        name: 26,
        kind: SHT_STRTAB,
        flags: 0,
        addr: 0,
        offset: layout.shstrtab_off as u64,
        size: SHSTRTAB_SIZE,
        link: 0,
        info: 0,
        align: 1,
        entsize: 0,
    };
    let all = stub_sections(dynsym_len, dynstr_len);
    assert forall|k: int| 0 <= k < 320 implies #[trigger] out[shoff + k] == all[k] by {
        assert(out.subrange(shoff, shoff + 320)[k] == all[k]);
    }
    assert forall|k: int| 0 <= k < 64 implies #[trigger] out[shoff + k] == 0 by {
        assert(all[k] == zeros(64)[k]);
    }
    lemma_header_in(out, shoff, all, 64, symbols);
    lemma_header_in(out, shoff, all, 128, strings);
    lemma_header_in(out, shoff, all, 192, dynamic);
    lemma_header_in(out, shoff, all, 256, section_strings);
}

proof fn lemma_header_in(out: Seq<u8>, shoff: int, all: Seq<u8>, at: int, h: SectionHeader)
    requires
        0 <= shoff,
        shoff + 320 <= out.len(),
        all.len() == 320,
        0 <= at <= 256,
        forall|k: int| 0 <= k < 320 ==> #[trigger] out[shoff + k] == all[k],
        all.subrange(at, at + 64) =~= shdr_bytes(h),
    ensures
        u32_at(out, shoff + at) == h.name,
        u32_at(out, shoff + at + 4) == h.kind,
        u64_at(out, shoff + at + 8) == h.flags,
        u64_at(out, shoff + at + 16) == h.addr,
        u64_at(out, shoff + at + 24) == h.offset,
        u64_at(out, shoff + at + 32) == h.size,
        u32_at(out, shoff + at + 40) == h.link,
        u32_at(out, shoff + at + 44) == h.info,
        u64_at(out, shoff + at + 48) == h.align,
        u64_at(out, shoff + at + 56) == h.entsize,
{
    let (p, q) = (out.subrange(shoff + at, shoff + at + 64), all.subrange(at, at + 64));
    assert forall|i: int| 0 <= i < 64 implies p[i] == q[i] by {
        assert(out[shoff + (at + i)] == all[at + i]);
    }
    assert(p =~= q);
    lemma_section_header(out, shoff + at, h);
}

/// Whether a file is a shared object for linkers, with two program headers and five sections. All of it
/// but the section names and headers is loaded, where it stands in the file. The dynamic section leads
/// to the symbols and to the strings, and the sections say the same of them as the dynamic section
/// does.
pub open spec fn is_shared_object(out: Seq<u8>, machine: u16, symbols: int) -> bool {
    let loaded = u64_at(out, 96);
    let (symtab, strtab, dynamic, section_strings) = (
        section_header(out, 1),
        section_header(out, 2),
        section_header(out, 3),
        section_header(out, 4),
    );
    let at = section_offset(out, 3);
    // The file header: ELF, 64 bits, little-endian, a shared object.
    &&& out.subrange(0, 16) == seq![
        0x7fu8, 0x45, 0x4c, 0x46, 2, 1, 1, 0, 0, 0, 0, 0, 0, 0, 0, 0,
    ]
    &&& u16_at(out, 16) == 3 && u16_at(out, 18) == machine
    &&& u32_at(out, 20) == 1 && u64_at(out, 24) == 0 && u32_at(out, 48) == 0
    &&& u64_at(out, 32) == 64 && u16_at(out, 54) == 56 && u16_at(out, 56) == 2
    &&& u16_at(out, 52) == 64 && u16_at(out, 58) == 64
    &&& u16_at(out, 60) == 5 && u16_at(out, 62) == 4
    &&& section_header(out, 5) == out.len()
    // The program headers: the loaded part from the start of the file on, and the dynamic section.
    &&& u32_at(out, 64) == 1 && u32_at(out, 68) == 4
    &&& u64_at(out, 72) == 0 && u64_at(out, 80) == 0
    &&& u64_at(out, 104) == loaded && u64_at(out, 112) == 0x1000
    &&& section_offset(out, 1) + section_size(out, 1) <= loaded
    &&& section_offset(out, 2) + section_size(out, 2) <= loaded
    &&& section_offset(out, 3) + section_size(out, 3) <= loaded
    &&& u32_at(out, 120) == 2 && u32_at(out, 124) == 4
    &&& u64_at(out, 128) == at && u64_at(out, 136) == at
    &&& u64_at(out, 152) == section_size(out, 3) && u64_at(out, 160) == section_size(out, 3)
    // The sections: none, symbols, strings, dynamic section, section names.
    &&& forall|k: int| 0 <= k < 64 ==> #[trigger] out[section_header(out, 0) + k] == 0
    &&& is_section_named(out, 1, seq![0x2eu8, 0x64, 0x79, 0x6e, 0x73, 0x79, 0x6d])
    &&& u32_at(out, symtab + 4) == 11 && u64_at(out, symtab + 8) == 2
    &&& u32_at(out, symtab + 40) == 2 && u32_at(out, symtab + 44) == 1
    &&& u64_at(out, symtab + 56) == 24 && u64_at(out, symtab + 16) == section_offset(out, 1)
    &&& section_size(out, 1) == 24 * (symbols + 1)
    &&& is_section_named(out, 2, seq![0x2eu8, 0x64, 0x79, 0x6e, 0x73, 0x74, 0x72])
    &&& u32_at(out, strtab + 4) == 3 && u64_at(out, strtab + 8) == 2
    &&& u64_at(out, strtab + 16) == section_offset(out, 2)
    &&& is_section_named(out, 3, seq![0x2eu8, 0x64, 0x79, 0x6e, 0x61, 0x6d, 0x69, 0x63])
    &&& u32_at(out, dynamic + 4) == 6 && u64_at(out, dynamic + 8) == 3
    &&& u32_at(out, dynamic + 40) == 2 && u64_at(out, dynamic + 56) == 16
    &&& u64_at(out, dynamic + 16) == at && section_size(out, 3) == 96
    &&& is_section_named(
        out,
        4,
        seq![0x2eu8, 0x73, 0x68, 0x73, 0x74, 0x72, 0x74, 0x61, 0x62],
    )
    &&& u32_at(out, section_strings + 4) == 3 && u64_at(out, section_strings + 8) == 0
    &&& 176 == section_offset(out, 1)
    &&& section_offset(out, 1) + section_size(out, 1) == section_offset(out, 2)
    &&& section_offset(out, 2) + section_size(out, 2) <= section_offset(out, 3)
    &&& section_offset(out, 3) + section_size(out, 3) <= section_offset(out, 4)
    &&& section_offset(out, 4) + section_size(out, 4) <= section_header(out, 0)
    // The dynamic section.
    &&& u64_at(out, at) == 14
    &&& u64_at(out, at + 16) == 6 && u64_at(out, at + 24) == section_offset(out, 1)
    &&& u64_at(out, at + 32) == 11 && u64_at(out, at + 40) == 24
    &&& u64_at(out, at + 48) == 5 && u64_at(out, at + 56) == section_offset(out, 2)
    &&& u64_at(out, at + 64) == 10 && u64_at(out, at + 72) == section_size(out, 2)
    &&& u64_at(out, at + 80) == 0 && u64_at(out, at + 88) == 0
}

/// Whether the parts of a stub stand in a file where the layout says.
spec fn has_parts(
    out: Seq<u8>,
    machine: u16,
    dynsym_len: int,
    dynstr_len: int,
    soname: u32,
) -> bool {
    let layout = stub_layout(dynsym_len, dynstr_len);
    &&& out.len() == layout.size <= u64::MAX
    &&& out.subrange(0, 64) == stub_header(machine, layout.shoff as u64)
    &&& out.subrange(64, 120) == phdr_bytes(PT_LOAD, 0, layout.shstrtab_off as u64, 0x1000)
    &&& out.subrange(120, 176) == phdr_bytes(PT_DYNAMIC, layout.dyn_off as u64, DYN_SIZE, 8)
    &&& out.subrange(layout.dyn_off, layout.dyn_off + 96) == dynamic_section(
        soname,
        layout.dynstr_off as u64,
        dynstr_len as u64,
    )
    &&& out.subrange(layout.shstrtab_off, layout.shstrtab_off + 36) == section_names()
    &&& out.subrange(layout.shoff, layout.shoff + 320) == stub_sections(
        dynsym_len as u64,
        dynstr_len as u64,
    )
}

proof fn lemma_shared_object(
    out: Seq<u8>,
    machine: u16,
    symbols: int,
    dynstr_len: int,
    soname: u32,
)
    requires
        0 <= symbols,
        0 <= dynstr_len,
        has_parts(out, machine, 24 * (symbols + 1), dynstr_len, soname),
    ensures
        is_shared_object(out, machine, symbols),
        u64_at(out, section_offset(out, 3) + 8) == soname,
        section_offset(out, 2) == stub_layout(24 * (symbols + 1), dynstr_len).dynstr_off,
        section_size(out, 2) == dynstr_len,
{
    let layout = stub_layout(24 * (symbols + 1), dynstr_len);
    lemma_align_int(layout.dynstr_off + dynstr_len, 8);
    lemma_align_int(layout.shstrtab_off + 36, 8);
    lemma_file_header(out, machine, layout.shoff as u64);
    lemma_program_header(out, 64, PT_LOAD, 0, layout.shstrtab_off as u64, 0x1000);
    lemma_program_header(out, 120, PT_DYNAMIC, layout.dyn_off as u64, DYN_SIZE, 8);
    lemma_stub_sections(out, layout.shoff, (24 * (symbols + 1)) as u64, dynstr_len as u64);
    lemma_dynamic(out, layout.dyn_off, soname, layout.dynstr_off as u64, dynstr_len as u64);
    let at = layout.shstrtab_off;
    lemma_named(out, at, 1, seq![0x2eu8, 0x64, 0x79, 0x6e, 0x73, 0x79, 0x6d]);
    lemma_named(out, at, 9, seq![0x2eu8, 0x64, 0x79, 0x6e, 0x73, 0x74, 0x72]);
    lemma_named(out, at, 17, seq![0x2eu8, 0x64, 0x79, 0x6e, 0x61, 0x6d, 0x69, 0x63]);
    lemma_named(out, at, 26, seq![0x2eu8, 0x73, 0x68, 0x73, 0x74, 0x72, 0x74, 0x61, 0x62]);
}

proof fn lemma_has_parts(names: Seq<Seq<u8>>, soname: Seq<u8>, machine: u16)
    requires
        elf_stub_size(names, soname) <= u64::MAX,
    ensures
        has_parts(
            elf_stub_of(names, soname, machine),
            machine,
            24 * (names.len() + 1) as int,
            string_table(names.push(soname)).len() as int,
            string_table(names).len() as u32,
        ),
{
    lemma_stub_headers(names, soname, machine);
    lemma_stub_tables(names, soname, machine);
    lemma_symbols_len(names);
}

/// An ELF stub is a shared object of the architecture that was asked for.
pub proof fn law_elf_stub_is_a_shared_object(
    names: Seq<Seq<u8>>,
    soname: Seq<char>,
    arches: Seq<Arch>,
    out: Seq<u8>,
)
    requires
        is_elf_result(names, Some(soname), arches, Ok::<Seq<u8>, StubError>(out)),
    ensures
        arches.len() <= 1,
        is_shared_object(
            out,
            if arches.len() == 1 && arches[0] == Arch::Arm64 {
                183
            } else {
                62
            },
            names.len() as int,
        ),
{
    let so = encode_utf8(soname);
    let machine = elf_machine(one_arch(arches)->Ok_0);
    lemma_has_parts(names, so, machine);
    lemma_shared_object(
        out,
        machine,
        names.len() as int,
        string_table(names.push(so)).len() as int,
        string_table(names).len() as u32,
    );
}

proof fn lemma_named(out: Seq<u8>, at: int, from: int, text: Seq<u8>)
    requires
        0 <= at,
        at + 36 <= out.len(),
        out.subrange(at, at + 36) == section_names(),
        0 <= from,
        from + text.len() + 1 <= 36,
        section_names().subrange(from, from + text.len() + 1) =~= text + seq![0u8],
    ensures
        has_string(out, at + from, text),
{
    let end = from + text.len() + 1;
    assert(out.subrange(at + from, at + end) =~= out.subrange(at, at + 36).subrange(from, end));
}

proof fn lemma_symbols_len(names: Seq<Seq<u8>>)
    ensures
        elf_symbols(names).len() == 24 * (names.len() + 1),
    decreases names.len(),
{
    broadcast use group_field_len;

    if names.len() > 0 {
        lemma_symbols_len(names.drop_last());
    }
}

/// Each name of an ELF stub is a global function that is defined: a symbol behind the empty one and
/// those of the names before it, which leads to the name among the strings. The dynamic section leads
/// to the SONAME in the same way.
#[verifier::rlimit(60)]
#[verifier::spinoff_prover]
pub proof fn law_elf_stub_defines_its_names(
    names: Seq<Seq<u8>>,
    soname: Seq<char>,
    arches: Seq<Arch>,
    out: Seq<u8>,
    i: int,
)
    requires
        is_elf_result(names, Some(soname), arches, Ok::<Seq<u8>, StubError>(out)),
        out.len() <= u32::MAX,
        0 <= i < names.len(),
    ensures
        ({
            let strings = section_offset(out, 2);
            let symbol = section_offset(out, 1) + 24 * (i + 1);
            &&& has_string(out, strings + u32_at(out, symbol), names[i])
            &&& u32_at(out, symbol) + names[i].len() < section_size(out, 2)
            &&& out[symbol + 4] == 0x12
            &&& out[symbol + 5] == 0
            &&& u16_at(out, symbol + 6) == 0xfff1
            &&& u64_at(out, symbol + 8) == 0
            &&& u64_at(out, symbol + 16) == 0
            &&& forall|k: int|
                0 <= k < 24 ==> #[trigger] out[section_offset(out, 1) + k] == 0
            &&& has_string(
                out,
                strings + u64_at(out, section_offset(out, 3) + 8),
                encode_utf8(soname),
            )
        }),
{
    let so = encode_utf8(soname);
    let machine = elf_machine(one_arch(arches)->Ok_0);
    let dynstr = string_table(names.push(so));
    let so_at = string_table(names).len() as int;
    lemma_has_parts(names, so, machine);
    lemma_shared_object(out, machine, names.len() as int, dynstr.len() as int, so_at as u32);
    lemma_stub_tables(names, so, machine);
    lemma_symbols_len(names);
    lemma_string_found(names, so, out, section_offset(out, 2), names.len() as int);
    lemma_string_found(names, so, out, section_offset(out, 2), i);
    lemma_symbol_found(names, out, i);
    assert(names.push(so).subrange(0, i) =~= names.subrange(0, i));
    assert(names.push(so).subrange(0, names.len() as int) =~= names);
}

/// Where a name or the SONAME stands among the strings.
proof fn lemma_string_found(names: Seq<Seq<u8>>, so: Seq<u8>, out: Seq<u8>, base: int, i: int)
    requires
        0 <= i <= names.len(),
        0 <= base,
        base + string_table(names.push(so)).len() <= out.len(),
        out.subrange(base, base + string_table(names.push(so)).len()) == string_table(
            names.push(so),
        ),
    ensures
        0 <= name_offset(names.push(so), i),
        name_offset(names.push(so), i) + names.push(so)[i].len() < string_table(
            names.push(so),
        ).len(),
        has_string(out, base + name_offset(names.push(so), i), names.push(so)[i]),
{
    let all = names.push(so);
    let table = string_table(all);
    lemma_string_table(all, i);
    let at = name_offset(all, i);
    let end = at + all[i].len() + 1;
    assert(out.subrange(base + at, base + end) =~= out.subrange(base, base + table.len()).subrange(
        at,
        end,
    ));
}

/// What the symbol of a name holds.
proof fn lemma_symbol_found(names: Seq<Seq<u8>>, out: Seq<u8>, i: int)
    requires
        0 <= i < names.len(),
        176 + 24 * (names.len() + 1) <= out.len(),
        out.subrange(176, 176 + 24 * (names.len() + 1) as int) == elf_symbols(names),
    ensures
        ({
            let symbol = 176 + 24 * (i + 1);
            &&& u32_at(out, symbol) == name_offset(names, i) as u32
            &&& out[symbol + 4] == 0x12
            &&& out[symbol + 5] == 0
            &&& u16_at(out, symbol + 6) == 0xfff1
            &&& u64_at(out, symbol + 8) == 0
            &&& u64_at(out, symbol + 16) == 0
            &&& forall|k: int| 0 <= k < 24 ==> #[trigger] out[176 + k] == 0
        }),
{
    broadcast use group_field_len;

    lemma_elf_symbols(names, i);
    let dynsym = elf_symbols(names);
    let len = 24 * (names.len() + 1) as int;
    let entry = elf_symbol(name_offset(names, i) as u32);
    assert(entry.len() == 24);
    let symbol = 176 + 24 * (i + 1);
    assert(out.subrange(symbol, symbol + 24) =~= out.subrange(176, 176 + len).subrange(
        24 * (i + 1),
        24 * (i + 2),
    ));
    lemma_u32_in(out, entry, symbol, 0, name_offset(names, i) as u32);
    assert(out[symbol + 4] == out.subrange(symbol, symbol + 24)[4]);
    assert(out[symbol + 5] == out.subrange(symbol, symbol + 24)[5]);
    lemma_u16_in(out, entry, symbol, 6, 0xfff1);
    lemma_u64_in(out, entry, symbol, 8, 0);
    lemma_u64_in(out, entry, symbol, 16, 0);
    lemma_first_symbol(names);
    assert forall|k: int| 0 <= k < 24 implies #[trigger] out[176 + k] == 0 by {
        assert(out.subrange(176, 176 + len)[k] == dynsym[k]);
    }
}

proof fn lemma_first_symbol(names: Seq<Seq<u8>>)
    ensures
        elf_symbols(names).len() >= 24,
        forall|k: int| 0 <= k < 24 ==> #[trigger] elf_symbols(names)[k] == 0,
    decreases names.len(),
{
    broadcast use group_field_len;

    if names.len() > 0 {
        lemma_first_symbol(names.drop_last());
    }
}

} // verus!
