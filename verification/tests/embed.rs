use symgen::util::embed::descriptor::{align_to, patch_descriptor};
use symgen::util::embed::image::find_macho_descriptor;
use symgen::util::embed::{embed, EmbedError};
use symgen::util::macho::MachOError;

use object::{Object, ObjectSection};

struct PeSection {
    name: &'static [u8],
    address: u32,
    data: Vec<u8>,
    flags: u32,
}

const PE_BASE: u64 = 0x1_4000_0000;
const PE_FILE_ALIGN: usize = 0x200;

/// A PE32+ image for x86-64. Its headers fill `headers` bytes of the file.
fn pe(machine: u16, headers: usize, sections: &[PeSection], directories: &[(usize, u32, u32)]) -> Vec<u8> {
    let mut out = vec![0u8; headers];
    out[..2].copy_from_slice(b"MZ");
    out[60..64].copy_from_slice(&0x40u32.to_le_bytes());
    out[0x40..0x44].copy_from_slice(b"PE\0\0");
    let mut file = Vec::new();
    file.extend_from_slice(&machine.to_le_bytes());
    file.extend_from_slice(&(sections.len() as u16).to_le_bytes());
    file.extend_from_slice(&[0u8; 12]);
    file.extend_from_slice(&240u16.to_le_bytes());
    file.extend_from_slice(&0x2022u16.to_le_bytes());
    out[0x44..0x58].copy_from_slice(&file);

    let optional = 0x58;
    out[optional..optional + 2].copy_from_slice(&0x20bu16.to_le_bytes());
    out[optional + 24..optional + 32].copy_from_slice(&PE_BASE.to_le_bytes());
    out[optional + 32..optional + 36].copy_from_slice(&0x1000u32.to_le_bytes());
    out[optional + 36..optional + 40].copy_from_slice(&(PE_FILE_ALIGN as u32).to_le_bytes());
    out[optional + 60..optional + 64].copy_from_slice(&(headers as u32).to_le_bytes());
    out[optional + 108..optional + 112].copy_from_slice(&16u32.to_le_bytes());
    for (index, address, size) in directories {
        let at = optional + 112 + 8 * index;
        out[at..at + 4].copy_from_slice(&address.to_le_bytes());
        out[at + 4..at + 8].copy_from_slice(&size.to_le_bytes());
    }

    let mut image_size = 0x1000u32;
    for (i, section) in sections.iter().enumerate() {
        let at = optional + 240 + 40 * i;
        let raw = out.len() as u32;
        let size = section.data.len().next_multiple_of(PE_FILE_ALIGN);
        out[at..at + section.name.len()].copy_from_slice(section.name);
        out[at + 8..at + 12].copy_from_slice(&(section.data.len() as u32).to_le_bytes());
        out[at + 12..at + 16].copy_from_slice(&section.address.to_le_bytes());
        out[at + 16..at + 20].copy_from_slice(&(size as u32).to_le_bytes());
        out[at + 20..at + 24].copy_from_slice(&raw.to_le_bytes());
        out[at + 36..at + 40].copy_from_slice(&section.flags.to_le_bytes());
        out.extend_from_slice(&section.data);
        out.resize(raw as usize + size, 0);
        image_size =
            image_size.max((section.address + section.data.len() as u32).next_multiple_of(0x1000));
    }
    out[optional + 56..optional + 60].copy_from_slice(&image_size.to_le_bytes());
    out
}

struct Section {
    name: &'static str,
    kind: u32,
    flags: u64,
    address: u64,
    data: Vec<u8>,
}

struct Symbol {
    name: &'static str,
    /// Binding in the upper half, type in the lower one.
    info: u8,
    visibility: u8,
    /// One-based index among the given sections; 0 is undefined.
    section: u16,
    value: u64,
}

fn pad(out: &mut Vec<u8>, align: usize) {
    while out.len() % align != 0 {
        out.push(0);
    }
}

fn add_string(table: &mut Vec<u8>, text: &str) -> u32 {
    let offset = table.len() as u32;
    table.extend_from_slice(text.as_bytes());
    table.push(0);
    offset
}

fn section_header(fields: [u64; 10]) -> Vec<u8> {
    let mut out = Vec::new();
    for (i, value) in fields.iter().enumerate() {
        if matches!(i, 0 | 1 | 6 | 7) {
            out.extend_from_slice(&(*value as u32).to_le_bytes());
        } else {
            out.extend_from_slice(&value.to_le_bytes());
        }
    }
    out
}

/// A little-endian ELF64 file: the given sections, then `.symtab`, `.strtab` and `.shstrtab`.
fn elf(kind: u16, machine: u16, sections: &[Section], symbols: &[Symbol]) -> Vec<u8> {
    let mut out = vec![0u8; 64];
    let mut names = vec![0u8];
    let mut headers = section_header([0; 10]);
    for section in sections {
        pad(&mut out, 16);
        let name = add_string(&mut names, section.name);
        headers.extend(section_header([
            name.into(),
            section.kind.into(),
            section.flags,
            section.address,
            out.len() as u64,
            section.data.len() as u64,
            0,
            0,
            8,
            0,
        ]));
        out.extend_from_slice(&section.data);
    }

    let mut strings = vec![0u8];
    let mut table = vec![0u8; 24];
    let mut locals = 1u64;
    for symbol in symbols {
        table.extend_from_slice(&add_string(&mut strings, symbol.name).to_le_bytes());
        table.push(symbol.info);
        table.push(symbol.visibility);
        table.extend_from_slice(&symbol.section.to_le_bytes());
        table.extend_from_slice(&symbol.value.to_le_bytes());
        table.extend_from_slice(&0u64.to_le_bytes());
        if symbol.info >> 4 == 0 {
            locals += 1;
        }
    }
    let count = sections.len() as u64;
    pad(&mut out, 16);
    let name = add_string(&mut names, ".symtab");
    headers.extend(section_header([
        name.into(),
        2,
        0,
        0,
        out.len() as u64,
        table.len() as u64,
        count + 2,
        locals,
        8,
        24,
    ]));
    out.extend_from_slice(&table);
    let name = add_string(&mut names, ".strtab");
    headers.extend(section_header([
        name.into(),
        3,
        0,
        0,
        out.len() as u64,
        strings.len() as u64,
        0,
        0,
        1,
        0,
    ]));
    out.extend_from_slice(&strings);
    let name = add_string(&mut names, ".shstrtab");
    headers.extend(section_header([
        name.into(),
        3,
        0,
        0,
        out.len() as u64,
        names.len() as u64,
        0,
        0,
        1,
        0,
    ]));
    out.extend_from_slice(&names);
    pad(&mut out, 8);
    let table_at = out.len() as u64;
    out.extend_from_slice(&headers);

    out[..16].copy_from_slice(b"\x7fELF\x02\x01\x01\0\0\0\0\0\0\0\0\0");
    out[16..18].copy_from_slice(&kind.to_le_bytes());
    out[18..20].copy_from_slice(&machine.to_le_bytes());
    out[20..24].copy_from_slice(&1u32.to_le_bytes());
    out[40..48].copy_from_slice(&table_at.to_le_bytes());
    out[52..54].copy_from_slice(&64u16.to_le_bytes());
    out[54..56].copy_from_slice(&56u16.to_le_bytes());
    out[58..60].copy_from_slice(&64u16.to_le_bytes());
    out[60..62].copy_from_slice(&(count as u16 + 4).to_le_bytes());
    out[62..64].copy_from_slice(&(count as u16 + 3).to_le_bytes());
    out
}

const BLOB: &[u8] = b"the manifest of the image";

fn descriptor() -> Vec<u8> {
    let mut out = b"SYMDBHDR".to_vec();
    out.resize(24, 0);
    out
}

fn word(data: &[u8], at: usize) -> u64 {
    u64::from_le_bytes(data[at..at + 8].try_into().unwrap())
}

/// Where the descriptor of an image stands.
fn find_magic(data: &[u8]) -> usize {
    data.windows(8).position(|bytes| bytes == b"SYMDBHDR").unwrap()
}

fn fails(data: Vec<u8>) -> EmbedError {
    embed(data, BLOB).err().unwrap()
}

fn pe_image(headers: usize) -> Vec<u8> {
    let mut sections =
        vec![PeSection { name: b".text", address: 0x1000, data: vec![0xc3; 16], flags: 0x6000_0020 }];
    sections.push(PeSection {
        name: b".symdbh",
        address: 0x2000,
        data: descriptor(),
        flags: 0xc000_0040,
    });
    pe(0x8664, headers, &sections, &[])
}

fn check_pe(original: &[u8], out: &[u8]) {
    let at = find_magic(out);
    let (rva, size) = (word(out, at + 8), word(out, at + 16));
    assert_eq!(size, BLOB.len() as u64);
    let file = object::File::parse(out).unwrap();
    let section = file.section_by_name(".symdb").unwrap();
    assert_eq!(section.address(), PE_BASE + rva);
    assert_eq!(&section.data().unwrap()[..BLOB.len()], BLOB);
    // The other sections keep their contents and addresses.
    let before = object::File::parse(original).unwrap();
    let text = before.section_by_name(".text").unwrap();
    let kept = file.section_by_name(".text").unwrap();
    assert_eq!(text.address(), kept.address());
    assert_eq!(text.data().unwrap(), kept.data().unwrap());
}

#[test]
fn a_pe_image_gets_a_section() {
    let original = pe_image(0x400);
    let out = embed(original.clone(), BLOB).unwrap();
    check_pe(&original, &out);
    assert_eq!(word(&out, find_magic(&out) + 8), 0x3000);
    assert_eq!(fails(out), EmbedError::AlreadyEmbedded);
}

#[test]
fn pe_headers_grow_where_they_are_full() {
    // Two sections fill the headers up to 0x198: there is room for one more, then for none.
    let original = pe_image(0x200);
    let out = embed(original.clone(), BLOB).unwrap();
    check_pe(&original, &out);
    let mut sections = Vec::new();
    for i in 0..4u32 {
        sections.push(PeSection {
            name: if i == 3 { b".symdbh" } else { b".text" },
            address: 0x1000 * (i + 1),
            data: if i == 3 { descriptor() } else { vec![0x90; 8] },
            flags: 0x4000_0040,
        });
    }
    let full = pe(0x8664, 0x200, &sections, &[]);
    let out = embed(full.clone(), BLOB).unwrap();
    check_pe(&full, &out);
    assert!(out.len() >= full.len() + 0x400);
}

#[test]
fn pe_errors() {
    let mut none = pe_image(0x400);
    let at = find_magic(&none);
    none[at..at + 8].copy_from_slice(b"SOMEHDR\0");
    assert_eq!(fails(none), EmbedError::DescriptorMagic(u64::from_le_bytes(*b"SOMEHDR\0")));
    let mut patched = pe_image(0x400);
    patched[at + 8] = 1;
    assert_eq!(fails(patched), EmbedError::AlreadyPatched);
    let text = PeSection { name: b".text", address: 0x1000, data: vec![0xc3], flags: 0x6000_0020 };
    let plain = pe(0x8664, 0x400, &[text], &[]);
    assert_eq!(fails(plain), EmbedError::NoDescriptor);
    let mut signed = pe_image(0x400);
    let directory = 0x58 + 112 + 8 * 4;
    signed[directory..directory + 4].copy_from_slice(&0x800u32.to_le_bytes());
    signed[directory + 4..directory + 8].copy_from_slice(&8u32.to_le_bytes());
    assert_eq!(fails(signed), EmbedError::Signed);
}

fn elf_image(section: &'static str, data: Vec<u8>) -> Vec<u8> {
    elf(3, 62, &[Section { name: section, kind: 1, flags: 3, address: 0x1000, data }], &[])
}

#[test]
fn an_elf_image_gets_a_segment() {
    let original = elf_image("symdbh", descriptor());
    let out = embed(original.clone(), BLOB).unwrap();
    let at = find_magic(&out);
    assert_eq!(at, find_magic(&original));
    let (rva, size) = (word(&out, at + 8) as usize, word(&out, at + 16) as usize);
    assert_eq!(&out[rva..rva + size], BLOB);
    let file = object::File::parse(&*out).unwrap();
    let section = file.section_by_name("symdb").unwrap();
    assert_eq!(section.address(), rva as u64);
    assert_eq!(section.data().unwrap(), BLOB);
    // The file is kept but for its header, its descriptor and its section table.
    assert_eq!(&out[64..at + 8], &original[64..at + 8]);
    assert_eq!(fails(out), EmbedError::AlreadyEmbedded);
}

#[test]
fn elf_errors() {
    assert_eq!(fails(elf_image("other", descriptor())), EmbedError::NoDescriptor);
    assert_eq!(fails(elf_image("symdbh", vec![0; 16])), EmbedError::DescriptorTooSmall);
    assert_eq!(fails(elf_image("symdbh", vec![0; 24])), EmbedError::DescriptorMagic(0));
    let mut big = elf_image("symdbh", descriptor());
    big[5] = 2;
    assert_eq!(fails(big), EmbedError::NotElf64);
    let mut sizes = elf_image("symdbh", descriptor());
    sizes[58] = 63;
    assert_eq!(fails(sizes), EmbedError::ElfEntrySizes);
    let mut names = elf_image("symdbh", descriptor());
    names[62] = 40;
    assert_eq!(fails(names), EmbedError::BadShstrndx);
    let mut table = elf_image("symdbh", descriptor());
    table.truncate(table.len() - 8);
    assert_eq!(fails(table), EmbedError::TruncatedSectionHeaders);
}

#[test]
fn other_files_are_refused() {
    assert_eq!(fails(b"plain text, no image".to_vec()), EmbedError::ParseFailed);
    let mut narrow = elf_image("symdbh", descriptor());
    narrow[4] = 1;
    assert_eq!(fails(narrow), EmbedError::UnsupportedFormat);
}

#[test]
fn a_descriptor_is_patched_once() {
    let mut data = vec![0u8; 4];
    data.extend(descriptor());
    patch_descriptor(&mut data, 4, 0x1234, 56).unwrap();
    assert_eq!((word(&data, 12), word(&data, 20)), (0x1234, 56));
    let patched = data.clone();
    assert_eq!(patch_descriptor(&mut data, 4, 1, 1), Err(EmbedError::AlreadyPatched));
    assert_eq!(data, patched);
    assert_eq!(patch_descriptor(&mut data, 5, 1, 1), Err(EmbedError::DescriptorOutside));
    assert_eq!(data, patched);
    assert_eq!(align_to(0x1001, 0x1000), Ok(0x2000));
    assert_eq!(align_to(7, 0), Ok(7));
    assert_eq!(align_to(u64::MAX, 16), Err(EmbedError::Overflow));
}

#[test]
fn macho_descriptors_are_found_by_their_sections() {
    let range = Some(Some((64, 24)));
    assert_eq!(find_macho_descriptor(None, range), Ok(64));
    assert_eq!(find_macho_descriptor(Some(None), range), Err(EmbedError::AlreadyEmbedded));
    assert_eq!(find_macho_descriptor(None, None), Err(EmbedError::NoDescriptor));
    assert_eq!(
        find_macho_descriptor(None, Some(None)),
        Err(EmbedError::DescriptorNotFileBacked)
    );
    assert_eq!(
        find_macho_descriptor(None, Some(Some((64, 23)))),
        Err(EmbedError::DescriptorTooSmall)
    );
}

const PAGE: u64 = 0x4000;
const MACHO_BASE: u64 = 0x1_0000_0000;

fn macho_segment(name: &[u8], address: u64, fileoff: u64, filesize: u64, sections: u32) -> Vec<u8> {
    let mut out = Vec::new();
    out.extend_from_slice(&0x19u32.to_le_bytes());
    out.extend_from_slice(&(72 + 80 * sections).to_le_bytes());
    out.extend_from_slice(name);
    out.resize(24, 0);
    for field in [address, PAGE, fileoff, filesize] {
        out.extend_from_slice(&field.to_le_bytes());
    }
    for field in [3u32, 3, sections, 0] {
        out.extend_from_slice(&field.to_le_bytes());
    }
    out
}

/// An arm64 executable with its descriptor in `__DATA,__symdbh`.
fn macho_image() -> Vec<u8> {
    let at = 0x1000u64;
    let mut commands = macho_segment(b"__DATA", MACHO_BASE, 0, PAGE, 1);
    let mut section = b"__symdbh".to_vec();
    section.resize(16, 0);
    section.extend_from_slice(b"__DATA");
    section.resize(32, 0);
    section.extend_from_slice(&(MACHO_BASE + at).to_le_bytes());
    section.extend_from_slice(&24u64.to_le_bytes());
    section.extend_from_slice(&(at as u32).to_le_bytes());
    section.resize(80, 0);
    commands.extend(section);
    commands.extend(macho_segment(b"__LINKEDIT", MACHO_BASE + PAGE, PAGE, 16, 0));
    let mut out = Vec::new();
    for field in [0xfeed_facfu32, 0x0100_000c, 0, 2, 2, commands.len() as u32, 0, 0] {
        out.extend_from_slice(&field.to_le_bytes());
    }
    out.extend(commands);
    out.resize(at as usize, 0);
    out.extend(descriptor());
    out.resize(PAGE as usize, 0);
    out.extend_from_slice(b"linkedit--data--");
    out
}

#[test]
fn a_macho_image_gets_a_segment() {
    let out = embed(macho_image(), BLOB).unwrap();
    let at = find_magic(&out);
    assert_eq!(at, 0x1000);
    assert_eq!(word(&out, at + 8), MACHO_BASE + PAGE);
    assert_eq!(word(&out, at + 16), BLOB.len() as u64);
    assert_eq!(&out[PAGE as usize..PAGE as usize + BLOB.len()], BLOB);
    let file = object::File::parse(&*out).unwrap();
    let section = file.section_by_name("__symdb").unwrap();
    assert_eq!(section.address(), MACHO_BASE + PAGE);
    assert_eq!(section.data().unwrap(), BLOB);
    // What follows moves behind the new segment.
    assert_eq!(&out[2 * PAGE as usize..], b"linkedit--data--");
    assert_eq!(fails(out), EmbedError::AlreadyEmbedded);
}

#[test]
fn a_macho_image_needs_room_for_the_command() {
    let mut data = macho_image();
    data[32 + 72 + 80 + 72 + 10] = 1;
    assert_eq!(fails(data), EmbedError::MachO(MachOError::HeadroomNotZero));
}
