use symgen::util::msvc::arm::{
    arm64_jump_target, decode_arm64_import_thunk_iat, decode_arm64_vcall_slot,
};
use symgen::util::msvc::x64::{
    decode_x64_import_thunk_iat, decode_x64_vcall_slot, x64_jump_target,
};
use symgen::util::modmeta::parse_library;
use symgen::util::modmeta::HookTarget;
use symgen::util::msvc::imports::{collect_pe_iat_symbols, ImportError};
use symgen::util::msvc::{follow_jumps, image_bytes_at, Image, MemberPointerDecoder, MemberTarget};

#[test]
fn decodes_x64_relative_jumps() {
    assert_eq!(x64_jump_target(0x1000, &[0xe9, 0x20, 0, 0, 0]), Some(0x1025));
    assert_eq!(x64_jump_target(0x1000, &[0xe9, 0xe0, 0xff, 0xff, 0xff]), Some(0xfe5));
    assert_eq!(x64_jump_target(0x1000, &[0xe9, 0, 0]), None);
}

#[test]
fn decodes_x64_import_thunk() {
    let thunk = [0xff, 0x25, 0x58, 0xd5, 0x00, 0x00];
    assert_eq!(decode_x64_import_thunk_iat(0x180001ef2, &thunk), Some(0x18000f450));
    assert_eq!(decode_x64_import_thunk_iat(0x180001ef2, &[0xff, 0x20]), None);
}

#[test]
fn decodes_x64_vcall_thunks() {
    assert_eq!(decode_x64_vcall_slot(0x1000, &[0x48, 0x8b, 0x01, 0xff, 0x20]), Some(0));
    assert_eq!(
        decode_x64_vcall_slot(0x1000, &[0x48, 0x8b, 0x01, 0xff, 0x60, 0x38]),
        Some(0x38)
    );
    assert_eq!(
        decode_x64_vcall_slot(0x1000, &[0x48, 0x8b, 0x01, 0xff, 0xa0, 0x34, 0x01, 0x00, 0x00]),
        Some(0x134)
    );
    assert_eq!(decode_x64_vcall_slot(0x1000, &[0x48, 0x8b, 0x01, 0xc3]), None);
}

fn arm64_bytes(instructions: &[u32]) -> Vec<u8> {
    instructions.iter().flat_map(|instruction| instruction.to_le_bytes()).collect()
}

#[test]
fn decodes_arm64_thunks() {
    let jump = arm64_bytes(&[0x9000_0010, 0x913b_2210, 0xd61f_0200]);
    assert_eq!(arm64_jump_target(0x180009000, &jump), Some(0x180009ec8));

    let import = arm64_bytes(&[0xf000_0050, 0xf941_3210, 0xd61f_0200]);
    assert_eq!(decode_arm64_import_thunk_iat(0x180009ec8, &import), Some(0x180014260));

    let vcall = arm64_bytes(&[0xf940_0010, 0xf940_1e10, 0xd61f_0200]);
    assert_eq!(decode_arm64_vcall_slot(&vcall), Some(0x38));
}

struct PeSection {
    name: &'static [u8],
    address: u32,
    data: Vec<u8>,
    flags: u32,
}

const PE_BASE: u64 = 0x1_4000_0000;
const PE_FILE_ALIGN: usize = 0x200;

/// A PE32+ image for x86-64. Its headers fill `headers` bytes of the file.
fn pe(machine: u16, headers: usize, sections: &[PeSection], directories: &[(usize, u32, u32)]) -> Vec<u8> {
    let mut out = vec![0u8; headers];
    out[..2].copy_from_slice(b"MZ");
    out[60..64].copy_from_slice(&0x40u32.to_le_bytes());
    out[0x40..0x44].copy_from_slice(b"PE\0\0");
    let mut file = Vec::new();
    file.extend_from_slice(&machine.to_le_bytes());
    file.extend_from_slice(&(sections.len() as u16).to_le_bytes());
    file.extend_from_slice(&[0u8; 12]);
    file.extend_from_slice(&240u16.to_le_bytes());
    file.extend_from_slice(&0x2022u16.to_le_bytes());
    out[0x44..0x58].copy_from_slice(&file);

    let optional = 0x58;
    out[optional..optional + 2].copy_from_slice(&0x20bu16.to_le_bytes());
    out[optional + 24..optional + 32].copy_from_slice(&PE_BASE.to_le_bytes());
    out[optional + 32..optional + 36].copy_from_slice(&0x1000u32.to_le_bytes());
    out[optional + 36..optional + 40].copy_from_slice(&(PE_FILE_ALIGN as u32).to_le_bytes());
    out[optional + 60..optional + 64].copy_from_slice(&(headers as u32).to_le_bytes());
    out[optional + 108..optional + 112].copy_from_slice(&16u32.to_le_bytes());
    for (index, address, size) in directories {
        let at = optional + 112 + 8 * index;
        out[at..at + 4].copy_from_slice(&address.to_le_bytes());
        out[at + 4..at + 8].copy_from_slice(&size.to_le_bytes());
    }

    let mut image_size = 0x1000u32;
    for (i, section) in sections.iter().enumerate() {
        let at = optional + 240 + 40 * i;
        let raw = out.len() as u32;
        let size = section.data.len().next_multiple_of(PE_FILE_ALIGN);
        out[at..at + section.name.len()].copy_from_slice(section.name);
        out[at + 8..at + 12].copy_from_slice(&(section.data.len() as u32).to_le_bytes());
        out[at + 12..at + 16].copy_from_slice(&section.address.to_le_bytes());
        out[at + 16..at + 20].copy_from_slice(&(size as u32).to_le_bytes());
        out[at + 20..at + 24].copy_from_slice(&raw.to_le_bytes());
        out[at + 36..at + 40].copy_from_slice(&section.flags.to_le_bytes());
        out.extend_from_slice(&section.data);
        out.resize(raw as usize + size, 0);
        image_size =
            image_size.max((section.address + section.data.len() as u32).next_multiple_of(0x1000));
    }
    out[optional + 56..optional + 60].copy_from_slice(&image_size.to_le_bytes());
    out
}

const TEXT: u64 = PE_BASE + 0x1000;

fn put(data: &mut [u8], at: usize, bytes: &[u8]) {
    data[at..at + bytes.len()].copy_from_slice(bytes);
}

/// An import table at 0x2000 for an ordinal and `game_func`: the slot of the latter is at 0x2068.
fn import_section() -> PeSection {
    let mut data = vec![0u8; 0x100];
    for (i, field) in [0x2040u32, 0, 0, 0x20a0, 0x2060].iter().enumerate() {
        put(&mut data, 4 * i, &field.to_le_bytes());
    }
    for table in [0x40, 0x60] {
        put(&mut data, table, &(1u64 << 63 | 5).to_le_bytes());
        put(&mut data, table + 8, &0x2080u64.to_le_bytes());
    }
    put(&mut data, 0x82, b"game_func\0");
    put(&mut data, 0xa0, b"game.exe\0");
    PeSection { name: b".idata", address: 0x2000, data, flags: 0xc000_0040 }
}

fn image(machine: u16, text: Vec<u8>, metadata: Vec<u8>) -> Vec<u8> {
    pe(
        machine,
        0x400,
        &[
            PeSection { name: b".text", address: 0x1000, data: text, flags: 0x6000_0020 },
            import_section(),
            PeSection { name: b"modmeta", address: 0x3000, data: metadata, flags: 0x4000_0040 },
        ],
        &[(1, 0x2000, 40)],
    )
}

fn x64_text() -> Vec<u8> {
    let mut text = vec![0xccu8; 0x100];
    // A jump to a helper that takes the address of an import thunk.
    put(&mut text, 0, &[0xe9, 0x1b, 0, 0, 0]);
    put(&mut text, 0x20, &[0x48, 0x8d, 0x05, 0x19, 0, 0, 0, 0xc3]);
    put(&mut text, 0x40, &[0xff, 0x25]);
    put(&mut text, 0x42, &(0x2068u32 - 0x1046).to_le_bytes());
    // A helper that takes the address of a virtual call.
    put(&mut text, 0x60, &[0x48, 0x8b, 0x01, 0xff, 0x60, 0x38]);
    put(&mut text, 0x80, &[0x48, 0x8d, 0x05, 0xd9, 0xff, 0xff, 0xff, 0xc3]);
    // A helper that does neither, and a jump to itself.
    put(&mut text, 0xa0, &[0x31, 0xc0, 0xc3]);
    put(&mut text, 0xc0, &[0xe9, 0xfb, 0xff, 0xff, 0xff]);
    text
}

#[test]
fn imports_are_mapped_by_their_slot() {
    let data = image(0x8664, x64_text(), vec![0; 8]);
    assert_eq!(
        collect_pe_iat_symbols(&data),
        Ok(vec![(PE_BASE + 0x2068, "game_func".to_string())])
    );
    assert_eq!(collect_pe_iat_symbols(b"no image"), Ok(Vec::new()));
    let mut broken = data;
    put(&mut broken, 0x58 + 112 + 8, &0x9000u32.to_le_bytes());
    assert_eq!(collect_pe_iat_symbols(&broken), Err(ImportError::Malformed));
}

#[test]
fn x64_materializers_are_decoded() {
    let data = image(0x8664, x64_text(), vec![0; 8]);
    let image = Image::read(&data).unwrap();
    let decoder = MemberPointerDecoder::new(&data).unwrap();
    let decode = |at: u64| decoder.decode_materializer(&image, TEXT + at);
    assert!(matches!(decode(0), Some(MemberTarget::Symbol(name)) if name == "game_func"));
    assert!(matches!(decode(0x80), Some(MemberTarget::VirtualSlot(0x38))));
    assert!(decode(0xa0).is_none());
    assert!(decoder.decode_materializer(&image, 0).is_none());
    assert!(matches!(
        decoder.decode_member_target(&image, TEXT + 0x60),
        Some(MemberTarget::VirtualSlot(0x38))
    ));
}

#[test]
fn jumps_are_followed_to_their_end() {
    let data = image(0x8664, x64_text(), vec![0; 8]);
    let image = Image::read(&data).unwrap();
    assert_eq!(follow_jumps(&image, TEXT), Some(TEXT + 0x20));
    assert_eq!(follow_jumps(&image, TEXT + 0x20), Some(TEXT + 0x20));
    assert_eq!(follow_jumps(&image, TEXT + 0xc0), None);
    assert_eq!(follow_jumps(&image, 16), None);
    assert_eq!(&image_bytes_at(&image, TEXT + 0xa0).unwrap()[..3], &[0x31, 0xc0, 0xc3]);
    assert!(image_bytes_at(&image, TEXT - 1).is_none());
}

#[test]
fn arm64_materializers_are_decoded() {
    let mut text = vec![0u8; 0x100];
    put(&mut text, 0, &arm64_bytes(&[0x9000_0008, 0x9101_0108, 0xd65f_03c0]));
    put(&mut text, 0x40, &arm64_bytes(&[0xb000_0010, 0xf940_3610, 0xd61f_0200]));
    let data = image(0xaa64, text, vec![0; 8]);
    let image = Image::read(&data).unwrap();
    let decoder = MemberPointerDecoder::new(&data).unwrap();
    assert!(matches!(
        decoder.decode_materializer(&image, TEXT),
        Some(MemberTarget::Symbol(name)) if name == "game_func"
    ));
}

#[test]
fn extended_members_are_recovered_from_their_materializer() {
    let mut metadata = vec![8, 0, 1, 0, 2, 0, 0, 0];
    let mut record = vec![40, 0, 7, 0, 24, 0, 0, 0];
    record.extend_from_slice(&TEXT.to_le_bytes());
    record.extend_from_slice(&[0; 8]);
    record.extend_from_slice(b"vtable\0method\0");
    record.resize(40, 0);
    metadata.extend(record);
    let meta = parse_library(&image(0x8664, x64_text(), metadata)).unwrap();
    assert_eq!((meta.format.as_str(), meta.arch.as_str()), ("pe", "x86_64"));
    assert_eq!(meta.abi_version, 2);
    assert!(matches!(
        &meta.hooks[0],
        HookTarget::Mem { vtable, display, symbol: Some(symbol), virtual_slot: None }
            if vtable == "vtable" && display == "method" && symbol == "game_func"
    ));
}
