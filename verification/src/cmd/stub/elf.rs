//! Stub ELF shared object: SONAME and defined dynamic symbols, no code.
//!
//! Linkers resolve consumers' undefined symbols against it and record a `DT_NEEDED` on the SONAME;
//! the real library satisfies the binds at runtime.

use vstd::prelude::*;
use crate::bytes::{
    align_int, byte_rows, group_field_len, le16, le32, le64, push_bytes, push_u16, push_u32,
    push_u64, resize_zero, resized, zeros, lemma_u32_at_le, lemma_u64_at_le, u32_at, u64_at,
};
use crate::util::embed::elf::{phdr_bytes, push_phdr, PT_LOAD, SHF_ALLOC};

verus! {

broadcast use group_field_len;

pub const EM_X86_64: u16 = 62;

pub const EM_AARCH64: u16 = 183;

/// Size of the file header.
pub const EHDR_SIZE: u64 = 64;

/// Size of a section header.
pub const SHENT: u64 = 64;

/// Size of a symbol.
pub const SYMENT: u64 = 24;

/// Size of an entry of the dynamic section.
pub const DYNENT: u64 = 16;

pub const PT_DYNAMIC: u32 = 2;

pub const SHT_STRTAB: u32 = 3;

pub const SHT_DYNAMIC: u32 = 6;

pub const SHT_DYNSYM: u32 = 11;

pub const SHF_WRITE: u64 = 1;

/// Where the dynamic symbols stand: behind the file header and two program headers.
pub const DYNSYM_OFF: u64 = 176;

/// Size of the dynamic section: six entries.
pub const DYN_SIZE: u64 = 96;

/// Size of the section name table.
pub const SHSTRTAB_SIZE: u64 = 36;

/// A string table: an empty name, then each name with a zero byte behind it.
pub open spec fn string_table(names: Seq<Seq<u8>>) -> Seq<u8>
    decreases names.len(),
{
    if names.len() == 0 {
        seq![0u8]
    } else {
        string_table(names.drop_last()) + names.last() + seq![0u8]
    }
}

/// Where the `i`-th name stands in a string table.
pub open spec fn name_offset(names: Seq<Seq<u8>>, i: int) -> int {
    string_table(names.subrange(0, i)).len() as int
}

/// A global function symbol at the absolute address 0.
pub open spec fn elf_symbol(name: u32) -> Seq<u8> {
    le32(name) + seq![0x12u8, 0u8] + le16(0xfff1) + le64(0) + le64(0)
}

/// The symbol table of the names: an empty symbol, then one symbol for each name.
pub open spec fn elf_symbols(names: Seq<Seq<u8>>) -> Seq<u8>
    decreases names.len(),
{
    if names.len() == 0 {
        zeros(SYMENT as int)
    } else {
        elf_symbols(names.drop_last()) + elf_symbol(string_table(names.drop_last()).len() as u32)
    }
}

/// Where the parts of the stub stand, given the sizes of its symbol and string tables.
pub struct StubLayout {
    pub dynstr_off: int,
    pub dyn_off: int,
    pub shstrtab_off: int,
    pub shoff: int,
    pub size: int,
}

pub open spec fn stub_layout(dynsym_len: int, dynstr_len: int) -> StubLayout {
    let dynstr_off = DYNSYM_OFF + dynsym_len;
    let dyn_off = align_int(dynstr_off + dynstr_len, 8);
    let shstrtab_off = dyn_off + DYN_SIZE;
    let shoff = align_int(shstrtab_off + SHSTRTAB_SIZE, 8);
    StubLayout { dynstr_off, dyn_off, shstrtab_off, shoff, size: shoff + 5 * SHENT }
}

/// The file header of the stub.
pub open spec fn stub_header(machine: u16, shoff: u64) -> Seq<u8> {
    seq![0x7fu8, 0x45, 0x4c, 0x46, 2, 1, 1, 0, 0, 0, 0, 0, 0, 0, 0, 0] + le16(3) + le16(machine)
        + le32(1) + le64(0) + le64(EHDR_SIZE) + le64(shoff) + le32(0) + le16(64) + le16(56) + le16(
        2,
    ) + le16(64) + le16(5) + le16(4)
}

/// An entry of the dynamic section.
pub open spec fn dyn_entry(tag: u64, value: u64) -> Seq<u8> {
    le64(tag) + le64(value)
}

/// The dynamic section: SONAME, symbol table, symbol size, string table, its size, and the end.
pub open spec fn dynamic_section(soname: u32, dynstr_off: u64, dynstr_len: u64) -> Seq<u8> {
    dyn_entry(14, soname as u64) + dyn_entry(6, DYNSYM_OFF) + dyn_entry(11, SYMENT) + dyn_entry(
        5,
        dynstr_off,
    ) + dyn_entry(10, dynstr_len) + dyn_entry(0, 0)
}

/// The names of the sections: an empty one, `.dynsym`, `.dynstr`, `.dynamic` and `.shstrtab`.
pub open spec fn section_names() -> Seq<u8> {
    seq![
        0u8, 0x2e, 0x64, 0x79, 0x6e, 0x73, 0x79, 0x6d, 0u8, 0x2e, 0x64, 0x79, 0x6e, 0x73, 0x74,
        0x72, 0u8, 0x2e, 0x64, 0x79, 0x6e, 0x61, 0x6d, 0x69, 0x63, 0u8, 0x2e, 0x73, 0x68, 0x73,
        0x74, 0x72, 0x74, 0x61, 0x62, 0u8,
    ]
}

/// A section of the stub.
#[derive(Clone, Copy)]
pub struct SectionHeader {
    pub name: u32,
    pub kind: u32,
    pub flags: u64,
    pub addr: u64,
    pub offset: u64,
    pub size: u64,
    pub link: u32,
    pub info: u32,
    pub align: u64,
    pub entsize: u64,
}

pub open spec fn shdr_bytes(h: SectionHeader) -> Seq<u8> {
    le32(h.name) + le32(h.kind) + le64(h.flags) + le64(h.addr) + le64(h.offset) + le64(h.size)
        + le32(h.link) + le32(h.info) + le64(h.align) + le64(h.entsize)
}

/// The section headers of the stub.
pub open spec fn stub_sections(dynsym_len: u64, dynstr_len: u64) -> Seq<u8> {
    let layout = stub_layout(dynsym_len as int, dynstr_len as int);
    zeros(64) + shdr_bytes(
        SectionHeader {
            name: 1,
            kind: SHT_DYNSYM,
            flags: SHF_ALLOC,
            addr: DYNSYM_OFF,
            offset: DYNSYM_OFF,
            size: dynsym_len,
            link: 2,
            info: 1,
            align: 8,
            entsize: SYMENT,
        },
    ) + shdr_bytes(
        SectionHeader {
            name: 9,
            kind: SHT_STRTAB,
            flags: SHF_ALLOC,
            addr: layout.dynstr_off as u64,
            offset: layout.dynstr_off as u64,
            size: dynstr_len,
            link: 0,
            info: 0,
            align: 1,
            entsize: 0,
        },
    ) + shdr_bytes(
        SectionHeader {
            name: 17,
            kind: SHT_DYNAMIC,
            flags: 3,
            addr: layout.dyn_off as u64,
            offset: layout.dyn_off as u64,
            size: DYN_SIZE,
            link: 2,
            info: 0,
            align: 8,
            entsize: DYNENT,
        },
    ) + shdr_bytes(
        SectionHeader {
            name: 26,
            kind: SHT_STRTAB,
            flags: 0,
            addr: 0,
            offset: layout.shstrtab_off as u64,
            size: SHSTRTAB_SIZE,
            link: 0,
            info: 0,
            align: 1,
            entsize: 0,
        },
    )
}

/// The bytes of the stub. A single read-only `PT_LOAD` at address 0 keeps every virtual address
/// equal to its file offset; everything before the section names is loaded.
pub open spec fn elf_stub_of(names: Seq<Seq<u8>>, soname: Seq<u8>, machine: u16) -> Seq<u8> {
    let dynsym = elf_symbols(names);
    let dynstr = string_table(names.push(soname));
    let layout = stub_layout(dynsym.len() as int, dynstr.len() as int);
    let soname_off = string_table(names).len() as u32;
    let tables = stub_header(machine, layout.shoff as u64) + phdr_bytes(
        PT_LOAD,
        0,
        layout.shstrtab_off as u64,
        0x1000,
    ) + phdr_bytes(PT_DYNAMIC, layout.dyn_off as u64, DYN_SIZE, 8) + dynsym + dynstr;
    let loaded = resized(tables, layout.dyn_off) + dynamic_section(
        soname_off,
        layout.dynstr_off as u64,
        dynstr.len() as u64,
    );
    resized(loaded + section_names(), layout.shoff) + stub_sections(
        dynsym.len() as u64,
        dynstr.len() as u64,
    )
}

/// How large the stub is.
pub open spec fn elf_stub_size(names: Seq<Seq<u8>>, soname: Seq<u8>) -> int {
    stub_layout(
        elf_symbols(names).len() as int,
        string_table(names.push(soname)).len() as int,
    ).size
}

/// The symbol table and the string table of the names.
fn push_tables(names: &[Vec<u8>]) -> (r: (Vec<u8>, Vec<u8>))
    ensures
        r.0@ == elf_symbols(byte_rows(names@)),
        r.1@ == string_table(byte_rows(names@)),
{
    let ghost all = byte_rows(names@);
    let mut dynstr: Vec<u8> = Vec::new();
    dynstr.push(0);
    let mut dynsym: Vec<u8> = Vec::new();
    resize_zero(&mut dynsym, SYMENT as usize);
    assert(all.subrange(0, 0) =~= Seq::empty());
    assert(dynstr@ =~= string_table(all.subrange(0, 0)));
    assert(dynsym@ =~= elf_symbols(all.subrange(0, 0)));
    let mut i: usize = 0;
    while i < names.len()
        invariant
            i <= names@.len(),
            all == byte_rows(names@),
            dynstr@ == string_table(all.subrange(0, i as int)),
            dynsym@ == elf_symbols(all.subrange(0, i as int)),
        decreases names@.len() - i,
    {
        let ghost next = all.subrange(0, i + 1);
        let ghost symbols_before = dynsym@;
        proof {
            assert(next.drop_last() =~= all.subrange(0, i as int));
            assert(next.last() == names@[i as int]@);
        }
        #[verifier::truncate]
        let offset: u32 = dynstr.len() as u32;
        push_u32(&mut dynsym, offset);
        dynsym.push(0x12);
        dynsym.push(0);
        push_u16(&mut dynsym, 0xfff1);
        push_u64(&mut dynsym, 0);
        push_u64(&mut dynsym, 0);
        push_bytes(&mut dynstr, &names[i]);
        dynstr.push(0);
        proof {
            assert(dynsym@ =~= symbols_before + elf_symbol(offset));
            assert(dynstr@ =~= string_table(next));
        }
        i = i + 1;
    }
    assert(all.subrange(0, all.len() as int) =~= all);
    (dynsym, dynstr)
}

fn push_header(out: &mut Vec<u8>, machine: u16, shoff: u64)
    ensures
        final(out)@ == old(out)@ + stub_header(machine, shoff),
{
    let ident: [u8; 16] = [0x7f, 0x45, 0x4c, 0x46, 2, 1, 1, 0, 0, 0, 0, 0, 0, 0, 0, 0];
    assert(ident@ =~= seq![0x7fu8, 0x45, 0x4c, 0x46, 2, 1, 1, 0, 0, 0, 0, 0, 0, 0, 0, 0]);
    push_bytes(out, &ident);
    push_u16(out, 3);
    push_u16(out, machine);
    push_u32(out, 1);
    push_u64(out, 0);
    push_u64(out, EHDR_SIZE);
    push_u64(out, shoff);
    push_u32(out, 0);
    push_u16(out, 64);
    push_u16(out, 56);
    push_u16(out, 2);
    push_u16(out, 64);
    push_u16(out, 5);
    push_u16(out, 4);
    assert(out@ =~= old(out)@ + stub_header(machine, shoff));
}

fn push_dyn(out: &mut Vec<u8>, tag: u64, value: u64)
    ensures
        final(out)@ == old(out)@ + dyn_entry(tag, value),
{
    push_u64(out, tag);
    push_u64(out, value);
    assert(out@ =~= old(out)@ + dyn_entry(tag, value));
}

fn push_dynamic(out: &mut Vec<u8>, soname: u32, dynstr_off: u64, dynstr_len: u64)
    ensures
        final(out)@ == old(out)@ + dynamic_section(soname, dynstr_off, dynstr_len),
{
    push_dyn(out, 14, soname as u64);
    push_dyn(out, 6, DYNSYM_OFF);
    push_dyn(out, 11, SYMENT);
    push_dyn(out, 5, dynstr_off);
    push_dyn(out, 10, dynstr_len);
    push_dyn(out, 0, 0);
    assert(out@ =~= old(out)@ + dynamic_section(soname, dynstr_off, dynstr_len));
}

fn push_section_names(out: &mut Vec<u8>)
    ensures
        final(out)@ == old(out)@ + section_names(),
{
    let names: [u8; 36] = [
        0u8, 0x2e, 0x64, 0x79, 0x6e, 0x73, 0x79, 0x6d, 0u8, 0x2e, 0x64, 0x79, 0x6e, 0x73, 0x74,
        0x72, 0u8, 0x2e, 0x64, 0x79, 0x6e, 0x61, 0x6d, 0x69, 0x63, 0u8, 0x2e, 0x73, 0x68, 0x73,
        0x74, 0x72, 0x74, 0x61, 0x62, 0u8,
    ];
    assert(names@ =~= section_names());
    push_bytes(out, &names);
}

fn push_shdr(out: &mut Vec<u8>, h: SectionHeader)
    ensures
        final(out)@ == old(out)@ + shdr_bytes(h),
{
    push_u32(out, h.name);
    push_u32(out, h.kind);
    push_u64(out, h.flags);
    push_u64(out, h.addr);
    push_u64(out, h.offset);
    push_u64(out, h.size);
    push_u32(out, h.link);
    push_u32(out, h.info);
    push_u64(out, h.align);
    push_u64(out, h.entsize);
    assert(out@ =~= old(out)@ + shdr_bytes(h));
}

/// Where the parts of the stub stand.
struct Offsets {
    dynstr_off: u64,
    dyn_off: u64,
    shstrtab_off: u64,
    shoff: u64,
}

spec fn are_offsets(o: Offsets, dynsym_len: int, dynstr_len: int) -> bool {
    let layout = stub_layout(dynsym_len, dynstr_len);
    &&& o.dynstr_off == layout.dynstr_off
    &&& o.dyn_off == layout.dyn_off
    &&& o.shstrtab_off == layout.shstrtab_off
    &&& o.shoff == layout.shoff
    &&& layout.size <= usize::MAX
}

fn round_to_eight(v: u128) -> (r: u128)
    requires
        v <= 0x1_0000_0000_0000_0000_0000,
    ensures
        r == align_int(v as int, 8),
        v <= r < v + 8,
{
    if v % 8 == 0 {
        v
    } else {
        v + (8 - v % 8)
    }
}

/// Find the places of the parts; nothing where the stub could not be held.
fn place_parts(dynsym_len: usize, dynstr_len: usize) -> (r: Option<Offsets>)
    ensures
        match r {
            Some(o) => are_offsets(o, dynsym_len as int, dynstr_len as int),
            None => stub_layout(dynsym_len as int, dynstr_len as int).size > usize::MAX,
        },
{
    let dynstr_off: u128 = DYNSYM_OFF as u128 + dynsym_len as u128;
    let dyn_off: u128 = round_to_eight(dynstr_off + dynstr_len as u128);
    let shstrtab_off: u128 = dyn_off + DYN_SIZE as u128;
    let shoff: u128 = round_to_eight(shstrtab_off + SHSTRTAB_SIZE as u128);
    if shoff + 5 * SHENT as u128 > usize::MAX as u128 {
        return None;
    }
    Some(
        Offsets {
            dynstr_off: dynstr_off as u64,
            dyn_off: dyn_off as u64,
            shstrtab_off: shstrtab_off as u64,
            shoff: shoff as u64,
        },
    )
}

fn push_sections(out: &mut Vec<u8>, dynsym_len: u64, dynstr_len: u64, o: &Offsets)
    requires
        are_offsets(*o, dynsym_len as int, dynstr_len as int),
    ensures
        final(out)@ == old(out)@ + stub_sections(dynsym_len, dynstr_len),
{
    let mut empty: Vec<u8> = Vec::new();
    resize_zero(&mut empty, 64);
    assert(empty@ =~= zeros(64));
    push_bytes(out, &empty);
    push_shdr(
        out,
        SectionHeader {
            name: 1,
            kind: SHT_DYNSYM,
            flags: SHF_ALLOC,
            addr: DYNSYM_OFF,
            offset: DYNSYM_OFF,
            size: dynsym_len,
            link: 2,
            info: 1,
            align: 8,
            entsize: SYMENT,
        },
    );
    push_shdr(
        out,
        SectionHeader {
            name: 9,
            kind: SHT_STRTAB,
            flags: SHF_ALLOC,
            addr: o.dynstr_off,
            offset: o.dynstr_off,
            size: dynstr_len,
            link: 0,
            info: 0,
            align: 1,
            entsize: 0,
        },
    );
    push_shdr(
        out,
        SectionHeader {
            name: 17,
            kind: SHT_DYNAMIC,
            flags: SHF_ALLOC + SHF_WRITE,
            addr: o.dyn_off,
            offset: o.dyn_off,
            size: DYN_SIZE,
            link: 2,
            info: 0,
            align: 8,
            entsize: DYNENT,
        },
    );
    push_shdr(
        out,
        SectionHeader {
            name: 26,
            kind: SHT_STRTAB,
            flags: 0,
            addr: 0,
            offset: o.shstrtab_off,
            size: SHSTRTAB_SIZE,
            link: 0,
            info: 0,
            align: 1,
            entsize: 0,
        },
    );
    assert(out@ =~= old(out)@ + stub_sections(dynsym_len, dynstr_len));
}

/// The stub that defines the names under a SONAME; nothing where it could not be held.
pub fn elf_stub(names: &[Vec<u8>], soname: &[u8], machine: u16) -> (r: Option<Vec<u8>>)
    ensures
        match r {
            Some(data) => data@ == elf_stub_of(byte_rows(names@), soname@, machine),
            None => elf_stub_size(byte_rows(names@), soname@) > usize::MAX,
        },
{
    let ghost all = byte_rows(names@);
    let (dynsym, mut dynstr) = push_tables(names);
    #[verifier::truncate]
    let soname_off: u32 = dynstr.len() as u32;
    push_bytes(&mut dynstr, soname);
    dynstr.push(0);
    proof {
        assert(all.push(soname@).drop_last() =~= all);
        assert(dynstr@ =~= string_table(all.push(soname@)));
    }
    let o: Offsets = match place_parts(dynsym.len(), dynstr.len()) {
        Some(o) => o,
        None => return None,
    };
    let dynsym_len: u64 = dynsym.len() as u64;
    let dynstr_len: u64 = dynstr.len() as u64;
    let mut data: Vec<u8> = Vec::new();
    push_header(&mut data, machine, o.shoff);
    push_phdr(&mut data, PT_LOAD, 0, o.shstrtab_off, 0x1000);
    push_phdr(&mut data, PT_DYNAMIC, o.dyn_off, DYN_SIZE, 8);
    push_bytes(&mut data, &dynsym);
    push_bytes(&mut data, &dynstr);
    assert(data@ =~= stub_header(machine, o.shoff) + phdr_bytes(PT_LOAD, 0, o.shstrtab_off, 0x1000)
        + phdr_bytes(PT_DYNAMIC, o.dyn_off, DYN_SIZE, 8) + dynsym@ + dynstr@);
    resize_zero(&mut data, o.dyn_off as usize);
    push_dynamic(&mut data, soname_off, o.dynstr_off, dynstr_len);
    push_section_names(&mut data);
    resize_zero(&mut data, o.shoff as usize);
    push_sections(&mut data, dynsym_len, dynstr_len, &o);
    Some(data)
}

pub(crate) proof fn lemma_elf_symbols(names: Seq<Seq<u8>>, i: int)
    requires
        0 <= i < names.len(),
    ensures
        elf_symbols(names).len() == SYMENT * (names.len() + 1),
        elf_symbols(names).subrange(SYMENT * (i + 1), SYMENT * (i + 2)) == elf_symbol(
            name_offset(names, i) as u32,
        ),
    decreases names.len(),
{
    let before = names.drop_last();
    if before.len() > 0 {
        lemma_elf_symbols(before, 0);
    }
    assert(elf_symbols(before).len() == SYMENT * (before.len() + 1));
    if i < before.len() {
        lemma_elf_symbols(before, i);
        assert(before.subrange(0, i) =~= names.subrange(0, i));
        assert(elf_symbols(names).subrange(SYMENT * (i + 1), SYMENT * (i + 2)) =~= elf_symbols(
            before,
        ).subrange(SYMENT * (i + 1), SYMENT * (i + 2)));
    } else {
        assert(names.subrange(0, i) =~= before);
        assert(elf_symbols(names).subrange(SYMENT * (i + 1), SYMENT * (i + 2)) =~= elf_symbol(
            name_offset(names, i) as u32,
        ));
    }
}

/// Each name stands in a string table at its offset, with a zero byte behind it.
pub proof fn lemma_string_table(names: Seq<Seq<u8>>, i: int)
    requires
        0 <= i < names.len(),
    ensures
        0 < name_offset(names, i),
        name_offset(names, i) + names[i].len() < string_table(names).len(),
        string_table(names).subrange(
            name_offset(names, i),
            name_offset(names, i) + names[i].len() + 1,
        ) == names[i] + seq![0u8],
    decreases names.len(),
{
    let before = names.drop_last();
    let at = name_offset(names, i);
    lemma_string_table_len(names.subrange(0, i));
    if i < before.len() {
        lemma_string_table(before, i);
        assert(before.subrange(0, i) =~= names.subrange(0, i));
        assert(string_table(names).subrange(at, at + names[i].len() + 1) =~= string_table(
            before,
        ).subrange(at, at + names[i].len() + 1));
    } else {
        assert(names.subrange(0, i) =~= before);
        assert(string_table(names).subrange(at, at + names[i].len() + 1) =~= names[i] + seq![0u8]);
    }
}

proof fn lemma_string_table_len(names: Seq<Seq<u8>>)
    ensures
        string_table(names).len() >= 1,
    decreases names.len(),
{
    if names.len() > 0 {
        lemma_string_table_len(names.drop_last());
    }
}

/// The stub has the size that its layout gives it, and its tables stand where the layout says.
pub(crate) proof fn lemma_stub_tables(names: Seq<Seq<u8>>, soname: Seq<u8>, machine: u16)
    ensures
        ({
            let stub = elf_stub_of(names, soname, machine);
            let dynsym = elf_symbols(names);
            let dynstr = string_table(names.push(soname));
            let layout = stub_layout(dynsym.len() as int, dynstr.len() as int);
            &&& stub.len() == layout.size
            &&& stub.subrange(DYNSYM_OFF as int, layout.dynstr_off) == dynsym
            &&& stub.subrange(layout.dynstr_off, layout.dynstr_off + dynstr.len()) == dynstr
            &&& stub.subrange(layout.dyn_off, layout.shstrtab_off) == dynamic_section(
                string_table(names).len() as u32,
                layout.dynstr_off as u64,
                dynstr.len() as u64,
            )
        }),
{
    let dynsym = elf_symbols(names);
    let dynstr = string_table(names.push(soname));
    let layout = stub_layout(dynsym.len() as int, dynstr.len() as int);
    let front = stub_header(machine, layout.shoff as u64) + phdr_bytes(
        PT_LOAD,
        0,
        layout.shstrtab_off as u64,
        0x1000,
    ) + phdr_bytes(PT_DYNAMIC, layout.dyn_off as u64, DYN_SIZE, 8);
    assert(front.len() == DYNSYM_OFF);
    let tables = front + dynsym + dynstr;
    let dynamic = dynamic_section(
        string_table(names).len() as u32,
        layout.dynstr_off as u64,
        dynstr.len() as u64,
    );
    let loaded = resized(tables, layout.dyn_off) + dynamic;
    let named = resized(loaded + section_names(), layout.shoff);
    let stub = elf_stub_of(names, soname, machine);
    let sections = stub_sections(dynsym.len() as u64, dynstr.len() as u64);
    assert(stub == named + sections);
    assert(tables.len() == layout.dynstr_off + dynstr.len());
    assert(dynamic.len() == DYN_SIZE);
    assert(loaded.len() == layout.shstrtab_off);
    assert(named.len() == layout.shoff);
    assert forall|k: int| 0 <= k < tables.len() implies stub[k] == tables[k] by {
        assert(loaded[k] == tables[k]);
        assert(named[k] == loaded[k]);
    }
    assert(stub.subrange(DYNSYM_OFF as int, layout.dynstr_off) =~= dynsym);
    assert(stub.subrange(layout.dynstr_off, layout.dynstr_off + dynstr.len()) =~= dynstr);
    assert forall|k: int| 0 <= k < DYN_SIZE implies stub[layout.dyn_off + k]
        == #[trigger] dynamic[k] by {
        assert(loaded[layout.dyn_off + k] == dynamic[k]);
        assert(named[layout.dyn_off + k] == loaded[layout.dyn_off + k]);
    }
    assert(stub.subrange(layout.dyn_off, layout.shstrtab_off) =~= dynamic);
}

/// The stub has the size that its layout gives it.
pub proof fn lemma_elf_stub_size(names: Seq<Seq<u8>>, soname: Seq<u8>, machine: u16)
    ensures
        elf_stub_of(names, soname, machine).len() == elf_stub_size(names, soname),
{
    lemma_stub_tables(names, soname, machine);
}

/// A part of a part stands where it stands in the part, counted from the part's place.
proof fn lemma_part_of_part(s: Seq<u8>, at: int, part: Seq<u8>, lo: int, hi: int)
    requires
        0 <= at,
        at + part.len() <= s.len(),
        s.subrange(at, at + part.len()) == part,
        0 <= lo <= hi <= part.len(),
    ensures
        s.subrange(at + lo, at + hi) == part.subrange(lo, hi),
{
    assert(s.subrange(at + lo, at + hi) =~= s.subrange(at, at + part.len()).subrange(lo, hi));
}

/// The symbol of a name holds the name's offset.
proof fn lemma_symbol_read(stub: Seq<u8>, names: Seq<Seq<u8>>, i: int)
    requires
        0 <= i < names.len(),
        name_offset(names, i) <= u32::MAX,
        DYNSYM_OFF + elf_symbols(names).len() <= stub.len(),
        stub.subrange(DYNSYM_OFF as int, DYNSYM_OFF + elf_symbols(names).len()) == elf_symbols(
            names,
        ),
    ensures
        u32_at(stub, DYNSYM_OFF + SYMENT * (i + 1)) == name_offset(names, i),
{
    let dynsym = elf_symbols(names);
    lemma_elf_symbols(names, i);
    let at = name_offset(names, i);
    let entry = elf_symbol(at as u32);
    assert(entry.subrange(0, 4) =~= le32(at as u32));
    lemma_part_of_part(stub, DYNSYM_OFF as int, dynsym, SYMENT * (i + 1), SYMENT * (i + 2));
    let symbol = DYNSYM_OFF + SYMENT * (i + 1);
    lemma_part_of_part(stub, symbol, entry, 0, 4);
    lemma_u32_at_le(stub, symbol, at as u32);
}

/// A reader of the stub finds each name: the dynamic symbol behind the empty one and those of the
/// names before it points into the string table, where the name stands with a zero byte behind it.
/// The dynamic section gives the SONAME in the same way.
pub proof fn law_elf_stub_names_are_found(
    names: Seq<Seq<u8>>,
    soname: Seq<u8>,
    machine: u16,
    i: int,
)
    requires
        0 <= i < names.len(),
        string_table(names.push(soname)).len() <= u32::MAX,
    ensures
        ({
            let stub = elf_stub_of(names, soname, machine);
            let layout = stub_layout(
                elf_symbols(names).len() as int,
                string_table(names.push(soname)).len() as int,
            );
            let symbol = DYNSYM_OFF + SYMENT * (i + 1);
            let name = layout.dynstr_off + u32_at(stub, symbol);
            let so = layout.dynstr_off + u64_at(stub, layout.dyn_off + 8);
            &&& stub.subrange(name, name + names[i].len() + 1) == names[i] + seq![0u8]
            &&& stub.subrange(so, so + soname.len() + 1) == soname + seq![0u8]
        }),
{
    let stub = elf_stub_of(names, soname, machine);
    let all = names.push(soname);
    let dynsym = elf_symbols(names);
    let dynstr = string_table(all);
    let layout = stub_layout(dynsym.len() as int, dynstr.len() as int);
    lemma_stub_tables(names, soname, machine);
    lemma_string_table(all, i);
    lemma_string_table(all, names.len() as int);
    assert(all.subrange(0, i) =~= names.subrange(0, i));
    assert(all.subrange(0, names.len() as int) =~= names);
    lemma_symbol_read(stub, names, i);
    let at = name_offset(names, i);
    lemma_part_of_part(stub, layout.dynstr_off, dynstr, at, at + names[i].len() + 1);
    let so_at = string_table(names).len() as int;
    let dynamic = dynamic_section(so_at as u32, layout.dynstr_off as u64, dynstr.len() as u64);
    assert(dynamic.subrange(8, 16) =~= le64(so_at as u64));
    lemma_part_of_part(stub, layout.dyn_off, dynamic, 8, 16);
    lemma_u64_at_le(stub, layout.dyn_off + 8, so_at as u64);
    lemma_part_of_part(stub, layout.dynstr_off, dynstr, so_at, so_at + soname.len() + 1);
}

} // verus!
