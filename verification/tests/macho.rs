use std::mem::size_of;

use object::macho;
use object::pod::bytes_of;
use object::{LittleEndian as LE, U32, U64};
use symgen::util::macho::unsupported::Unsupported;
use symgen::util::macho::{
    grow_chained_fixups, parse_bind_opcodes, parse_rebase_opcodes, read_u32, remove_code_signature,
    Fixup, FixupTarget, Segment,
};
use symgen::util::macho::{
    align_up, fixed_name, insert_segments, read_uleb, MachOError, MachOImage, SectionSpec,
    SegmentSpec,
};

const TEST_PAGE: u64 = 0x4000;

fn segment_command(
    name: &[u8],
    vmaddr: u64,
    fileoff: u64,
    filesize: u64,
    protection: u32,
) -> macho::SegmentCommand64<LE> {
    let mut segname = [0u8; 16];
    segname[..name.len()].copy_from_slice(name);
    macho::SegmentCommand64 {
        cmd: U32::new(LE, macho::LC_SEGMENT_64),
        cmdsize: U32::new(LE, size_of::<macho::SegmentCommand64<LE>>() as u32),
        segname,
        vmaddr: U64::new(LE, vmaddr),
        vmsize: U64::new(LE, TEST_PAGE),
        fileoff: U64::new(LE, fileoff),
        filesize: U64::new(LE, filesize),
        maxprot: U32::new(LE, protection),
        initprot: U32::new(LE, protection),
        nsects: U32::new(LE, 0),
        flags: U32::new(LE, 0),
    }
}

fn signed_image() -> Vec<u8> {
    let command_size = 2 * size_of::<macho::SegmentCommand64<LE>>()
        + size_of::<macho::LinkeditDataCommand<LE>>();
    let header = macho::MachHeader64::<LE> {
        magic: U32::new(object::BigEndian, macho::MH_CIGAM_64),
        cputype: U32::new(LE, macho::CPU_TYPE_ARM64),
        cpusubtype: U32::new(LE, macho::CPU_SUBTYPE_ARM64_ALL),
        filetype: U32::new(LE, macho::MH_EXECUTE),
        ncmds: U32::new(LE, 3),
        sizeofcmds: U32::new(LE, command_size as u32),
        flags: U32::new(LE, macho::MH_NOUNDEFS | macho::MH_DYLDLINK | macho::MH_PIE),
        reserved: U32::new(LE, 0),
    };
    let text = segment_command(
        b"__TEXT",
        0x1_0000_0000,
        0,
        TEST_PAGE,
        macho::VM_PROT_READ | macho::VM_PROT_EXECUTE,
    );
    let linkedit = segment_command(
        b"__LINKEDIT",
        0x1_0000_0000 + TEST_PAGE,
        TEST_PAGE,
        32,
        macho::VM_PROT_READ,
    );
    let signature = macho::LinkeditDataCommand::<LE> {
        cmd: U32::new(LE, macho::LC_CODE_SIGNATURE),
        cmdsize: U32::new(LE, size_of::<macho::LinkeditDataCommand<LE>>() as u32),
        dataoff: U32::new(LE, TEST_PAGE as u32 + 16),
        datasize: U32::new(LE, 16),
    };

    let mut data = Vec::new();
    data.extend_from_slice(bytes_of(&header));
    data.extend_from_slice(bytes_of(&text));
    data.extend_from_slice(bytes_of(&linkedit));
    data.extend_from_slice(bytes_of(&signature));
    data.resize(TEST_PAGE as usize + 16, 0xaa);
    data.extend_from_slice(&[0xbb; 16]);
    data
}

fn test_segment() -> Segment {
    Segment {
        vmaddr: 0x1_0000_0000,
        vmsize: 0x4000,
        fileoff: 0,
        filesize: 0x4000,
        max_prot: macho::VM_PROT_READ | macho::VM_PROT_WRITE,
        init_prot: macho::VM_PROT_READ | macho::VM_PROT_WRITE,
        name: *b"__DATA\0\0\0\0\0\0\0\0\0\0",
    }
}

#[test]
fn classic_fixup_opcodes_are_structured() {
    let segments = [test_segment()];
    let rebases = parse_rebase_opcodes(&[0x11, 0x20, 0x20, 0x51, 0x00], &segments).unwrap();
    assert_eq!(rebases, [0x1_0000_0020]);

    let binds = parse_bind_opcodes(
        &[0x70, 0x28, 0x40, b'_', b'g', b'a', b'm', b'e', 0, 0x90, 0x00],
        &segments,
    )
    .unwrap();
    assert_eq!(binds, [Fixup {
        location: 0x1_0000_0028,
        target: FixupTarget::Bind(Some("game".to_string())),
    }]);
}

#[test]
fn removes_trailing_code_signature() {
    let output = remove_code_signature(signed_image()).unwrap();
    assert_eq!(output.len(), TEST_PAGE as usize + 16);

    let (header, _) = object::pod::from_bytes::<macho::MachHeader64<LE>>(&output).unwrap();
    assert_eq!(header.ncmds.get(LE), 2);
    assert_eq!(
        header.sizeofcmds.get(LE) as usize,
        2 * size_of::<macho::SegmentCommand64<LE>>()
    );

    let linkedit_offset =
        size_of::<macho::MachHeader64<LE>>() + size_of::<macho::SegmentCommand64<LE>>();
    let (linkedit, _) =
        object::pod::from_bytes::<macho::SegmentCommand64<LE>>(&output[linkedit_offset..])
            .unwrap();
    assert_eq!(linkedit.filesize.get(LE), 16);
    assert!(
        output[size_of::<macho::MachHeader64<LE>>()
            + 2 * size_of::<macho::SegmentCommand64<LE>>()
            ..size_of::<macho::MachHeader64<LE>>()
                + 2 * size_of::<macho::SegmentCommand64<LE>>()
                + size_of::<macho::LinkeditDataCommand<LE>>()]
            .iter()
            .all(|&byte| byte == 0)
    );

    assert_eq!(remove_code_signature(output.clone()).unwrap(), output);
}

#[test]
fn rejects_code_signature_before_end_of_file() {
    let mut input = signed_image();
    input.push(0);
    assert!(remove_code_signature(input).is_err());
}

#[test]
fn chained_fixup_growth_is_alignment_aware() {
    // Header + starts_in_image with three entries and an 8-byte-aligned tail.
    let mut blob = vec![0u8; 28];
    blob[4..8].copy_from_slice(&28u32.to_le_bytes());
    blob[8..12].copy_from_slice(&44u32.to_le_bytes());
    blob[12..16].copy_from_slice(&48u32.to_le_bytes());
    blob.extend_from_slice(&3u32.to_le_bytes());
    blob.extend_from_slice(&16u32.to_le_bytes());
    blob.extend_from_slice(&0u32.to_le_bytes());
    blob.extend_from_slice(&24u32.to_le_bytes());
    blob.extend_from_slice(&[0xaa; 8]);
    let (grown, growth) = grow_chained_fixups(&blob, 2, 2, 3).unwrap();
    assert_eq!(growth, 8);
    assert_eq!(read_u32(&grown, 28).unwrap(), 5);
    assert_eq!(read_u32(&grown, 32).unwrap(), 24);
    assert_eq!(read_u32(&grown, 36).unwrap(), 0);
    assert_eq!(read_u32(&grown, 40).unwrap(), 0);
    assert_eq!(read_u32(&grown, 44).unwrap(), 0);
    assert_eq!(read_u32(&grown, 48).unwrap(), 32);
    assert_eq!(read_u32(&grown, 8).unwrap(), 52);
    assert_eq!(read_u32(&grown, 12).unwrap(), 56);
    assert_eq!(&grown[52..], &[0xaa; 8]);
}

#[test]
fn chained_fixup_growth_reuses_existing_alignment_padding() {
    let mut blob = vec![0u8; 28];
    blob[4..8].copy_from_slice(&28u32.to_le_bytes());
    blob.extend_from_slice(&2u32.to_le_bytes());
    blob.extend_from_slice(&16u32.to_le_bytes());
    blob.extend_from_slice(&24u32.to_le_bytes());
    blob.extend_from_slice(&[0u8; 4]);
    blob.extend_from_slice(&[0xbb; 8]);

    let (grown, growth) = grow_chained_fixups(&blob, 1, 1, 2).unwrap();
    assert_eq!(growth, 0);
    assert_eq!(grown.len(), blob.len());
    assert_eq!(read_u32(&grown, 28).unwrap(), 3);
    assert_eq!(read_u32(&grown, 32).unwrap(), 16);
    assert_eq!(read_u32(&grown, 36).unwrap(), 0);
    assert_eq!(read_u32(&grown, 40).unwrap(), 24);
    assert_eq!(&grown[44..], &[0xbb; 8]);
}

#[test]
fn chained_fixup_growth_rejects_offsets_into_the_array() {
    let mut blob = vec![0u8; 28];
    blob[4..8].copy_from_slice(&28u32.to_le_bytes());
    blob.extend_from_slice(&1u32.to_le_bytes());
    blob.extend_from_slice(&4u32.to_le_bytes());
    assert!(grow_chained_fixups(&blob, 1, 2, 1).is_err());
}

const VM_BASE: u64 = 0x1_0000_0000;

fn spec(name: &str, data: &[u8]) -> SegmentSpec {
    SegmentSpec {
        name: name.to_string(),
        data: data.to_vec(),
        max_prot: macho::VM_PROT_READ,
        init_prot: macho::VM_PROT_READ,
        sections: vec![SectionSpec {
            name: "__part",
            offset: 0,
            size: data.len() as u64,
            align: 3,
            flags: 0,
        }],
    }
}

/// An executable with room for more load commands, `extra` commands and `linkedit` data.
fn roomy_image(extra: &[Vec<u8>], linkedit: &[u8]) -> Vec<u8> {
    let read = macho::VM_PROT_READ;
    let text = segment_command(b"__TEXT", VM_BASE, 0, TEST_PAGE, read | macho::VM_PROT_EXECUTE);
    let data =
        segment_command(b"__DATA", VM_BASE + TEST_PAGE, TEST_PAGE, TEST_PAGE, read);
    let last = segment_command(
        b"__LINKEDIT",
        VM_BASE + 2 * TEST_PAGE,
        2 * TEST_PAGE,
        linkedit.len() as u64,
        read,
    );
    let mut commands = Vec::new();
    for segment in [text, data, last] {
        commands.extend_from_slice(bytes_of(&segment));
    }
    for command in extra {
        commands.extend_from_slice(command);
    }
    let header = macho::MachHeader64::<LE> {
        magic: U32::new(object::BigEndian, macho::MH_CIGAM_64),
        cputype: U32::new(LE, macho::CPU_TYPE_ARM64),
        cpusubtype: U32::new(LE, macho::CPU_SUBTYPE_ARM64_ALL),
        filetype: U32::new(LE, macho::MH_EXECUTE),
        ncmds: U32::new(LE, 3 + extra.len() as u32),
        sizeofcmds: U32::new(LE, commands.len() as u32),
        flags: U32::new(LE, 0),
        reserved: U32::new(LE, 0),
    };
    let mut out = bytes_of(&header).to_vec();
    out.extend(commands);
    out.resize(0x1000, 0);
    out.resize(TEST_PAGE as usize, 0xc3);
    out.resize(2 * TEST_PAGE as usize, 0xdd);
    out.extend_from_slice(linkedit);
    out
}

fn segment_facts(data: &[u8]) -> Vec<(String, u64, u64, u64)> {
    let image = MachOImage::parse(data).unwrap();
    image
        .segments()
        .iter()
        .map(|segment| {
            let name = String::from_utf8_lossy(&segment.name).trim_end_matches('\0').to_string();
            (name, segment.vmaddr, segment.fileoff, segment.filesize)
        })
        .collect()
}

#[test]
fn inserted_segments_stand_before_linkedit() {
    let symtab: Vec<u8> = [2u32, 24, 2 * TEST_PAGE as u32 + 4, 0, 2 * TEST_PAGE as u32 + 8, 8]
        .iter()
        .flat_map(|field| field.to_le_bytes())
        .collect();
    let original = roomy_image(&[symtab], b"linkedit--data--");
    let inserted =
        insert_segments(original.clone(), &[spec("__ONE", b"first"), spec("__TWO", &[7; 0x5000])])
            .unwrap();
    let places: Vec<(u64, u64)> =
        inserted.segments.iter().map(|place| (place.vmaddr, place.fileoff)).collect();
    assert_eq!(
        places,
        [(VM_BASE + 2 * TEST_PAGE, 2 * TEST_PAGE), (VM_BASE + 3 * TEST_PAGE, 3 * TEST_PAGE)]
    );
    let out = &inserted.data;
    let at = 2 * TEST_PAGE as usize;
    assert_eq!(&out[at..at + 5], b"first");
    assert_eq!(out[3 * TEST_PAGE as usize..][..0x5000], [7; 0x5000]);
    // What stands before `__LINKEDIT` is kept, and what is in it follows.
    assert_eq!(&out[0x1000..at], &original[0x1000..at]);
    assert_eq!(&out[5 * TEST_PAGE as usize..], b"linkedit--data--");
    assert_eq!(
        segment_facts(out),
        [
            ("__TEXT".to_string(), VM_BASE, 0, TEST_PAGE),
            ("__DATA".to_string(), VM_BASE + TEST_PAGE, TEST_PAGE, TEST_PAGE),
            ("__ONE".to_string(), VM_BASE + 2 * TEST_PAGE, 2 * TEST_PAGE, TEST_PAGE),
            ("__TWO".to_string(), VM_BASE + 3 * TEST_PAGE, 3 * TEST_PAGE, 2 * TEST_PAGE),
            ("__LINKEDIT".to_string(), VM_BASE + 5 * TEST_PAGE, 5 * TEST_PAGE, 16),
        ]
    );
    // Offsets into `__LINKEDIT` move along.
    let command = 32 + 3 * 72 + 2 * (72 + 80);
    assert_eq!(read_u32(out, command), Ok(2));
    assert_eq!(read_u32(out, command + 8), Ok(5 * TEST_PAGE as u32 + 4));
    assert_eq!(read_u32(out, command + 16), Ok(5 * TEST_PAGE as u32 + 8));
}

fn insert_error(data: Vec<u8>, specs: &[SegmentSpec]) -> MachOError {
    insert_segments(data, specs).err().unwrap()
}

#[test]
fn insertion_errors() {
    let image = || roomy_image(&[], b"linkedit");
    let one = || spec("__ONE", b"data");
    assert_eq!(insert_error(vec![0; 16], &[one()]), MachOError::TruncatedHeader);
    assert_eq!(insert_error(vec![0; 64], &[one()]), MachOError::NotMachO64);
    assert_eq!(
        insert_error(image(), &[spec("__SEVENTEEN_CHARS", b"x")]),
        MachOError::BadName
    );
    assert_eq!(insert_error(image(), &[spec("__DATA", b"x")]), MachOError::SegmentExists);
    assert_eq!(insert_error(image(), &[spec("__ONE", b"")]), MachOError::EmptySegment);
    let mut past = one();
    past.sections[0].size = 5;
    assert_eq!(insert_error(image(), &[past]), MachOError::SectionPastSegment);
    let mut crooked = one();
    crooked.sections[0].offset = 2;
    crooked.sections[0].size = 2;
    assert_eq!(insert_error(image(), &[crooked]), MachOError::SectionMisaligned);
    let unknown: Vec<u8> = [0x77u32, 8].iter().flat_map(|field| field.to_le_bytes()).collect();
    assert_eq!(
        insert_error(roomy_image(&[unknown], b"linkedit"), &[one()]),
        MachOError::UnhandledCommand(0x77)
    );
    let mut moved = image();
    moved[32 + 2 * 72 + 8..32 + 2 * 72 + 18].copy_from_slice(b"__LINKEDIX");
    assert_eq!(insert_error(moved, &[one()]), MachOError::NoLinkedit);
    let mut dirty = image();
    dirty[32 + 3 * 72 + 20] = 1;
    assert_eq!(insert_error(dirty, &[one()]), MachOError::HeadroomNotZero);
}

/// An executable whose `__DATA` holds a rebased pointer and a bound one.
fn fixed_up_image() -> Vec<u8> {
    let mut linkedit = vec![0x11, 0x21, 0x08, 0x51, 0x00, 0, 0, 0];
    let bind = linkedit.len() as u32;
    linkedit.extend_from_slice(&[0x71, 0x10, 0x40]);
    linkedit.extend_from_slice(b"_game_func\0");
    linkedit.extend_from_slice(&[0x90, 0x00]);
    let at = 2 * TEST_PAGE as u32;
    let mut info: Vec<u8> = [0x8000_0022u32, 48, at, 8, at + bind, linkedit.len() as u32 - bind]
        .iter()
        .flat_map(|field| field.to_le_bytes())
        .collect();
    info.resize(48, 0);
    let mut data = roomy_image(&[info], &linkedit);
    let pointer = TEST_PAGE as usize + 8;
    data[pointer..pointer + 8].copy_from_slice(&(VM_BASE + 0x1234).to_le_bytes());
    data
}

#[test]
fn an_image_answers_for_its_addresses() {
    let data = fixed_up_image();
    let image = MachOImage::parse(&data).unwrap();
    assert_eq!(image.cpu_type(), macho::CPU_TYPE_ARM64);
    assert_eq!(image.preferred_base(), VM_BASE);
    assert_eq!(image.linkedit_vmaddr(), Ok(VM_BASE + 2 * TEST_PAGE));
    assert_eq!(image.vm_to_file(VM_BASE + TEST_PAGE + 4, 4), Ok(TEST_PAGE as usize + 4));
    assert_eq!(image.bytes_at(VM_BASE + TEST_PAGE, 2), Ok(&[0xdd, 0xdd][..]));
    let far = VM_BASE + 9 * TEST_PAGE;
    assert_eq!(
        image.vm_to_file(far, 1),
        Err(MachOError::NotFileBacked { start: far, end: far + 1 })
    );
    assert_eq!(image.vm_to_file(u64::MAX, 1), Err(MachOError::AddressOverflow));
    assert!(image.contains_vmaddr(VM_BASE));
    assert!(!image.contains_vmaddr(VM_BASE - 1));
    assert_eq!(image.section_file_range("__none"), Err(MachOError::NoSection));
    assert_eq!(image.platforms(), Ok(Vec::new()));
}

#[test]
fn fixups_are_read_from_dyld_info() {
    let data = fixed_up_image();
    let image = MachOImage::parse(&data).unwrap();
    let pointer = VM_BASE + TEST_PAGE + 8;
    assert_eq!(image.rebased_pointer(pointer), Ok(VM_BASE + 0x1234));
    assert_eq!(image.rebased_pointer(pointer + 8), Err(MachOError::BindOutsideImage(pointer + 8)));
    assert_eq!(image.rebased_pointer(pointer + 16), Err(MachOError::NoFixup(pointer + 16)));
    assert_eq!(
        image.bindings_in(&(pointer..pointer + 16)),
        Ok(vec![(pointer + 8, "game_func".to_string())])
    );
    assert_eq!(image.bindings_in(&(0..pointer)), Ok(Vec::new()));
    assert_eq!(MachOImage::parse(b"no image").err(), Some(MachOError::UnknownKind));
}

#[test]
fn uleb_numbers_are_read() {
    let mut at = 1;
    assert_eq!(read_uleb(&[0, 0xe5, 0x8e, 0x26, 9], &mut at), Ok(624485));
    assert_eq!(at, 4);
    at = 0;
    assert_eq!(read_uleb(&[0x80], &mut at), Err(MachOError::TruncatedUleb));
    assert_eq!(at, 1);
    at = 0;
    assert_eq!(read_uleb(&[0x80; 12], &mut at), Err(MachOError::UlebOverflow));
    assert_eq!(at, 10);
}

#[test]
fn opcode_errors() {
    let segments = [test_segment()];
    assert_eq!(parse_rebase_opcodes(&[0x12], &segments), Err(MachOError::RebaseType(2)));
    assert_eq!(parse_rebase_opcodes(&[0x21, 0], &segments), Err(MachOError::RebaseSegment));
    assert_eq!(parse_rebase_opcodes(&[0xf0], &segments), Err(MachOError::RebaseOpcode(0xf0)));
    assert_eq!(parse_bind_opcodes(&[0x40, b'a'], &segments), Err(MachOError::UnterminatedSymbol));
    assert_eq!(parse_bind_opcodes(&[0x60], &segments), Err(MachOError::TruncatedSleb));
    assert_eq!(parse_bind_opcodes(&[0x71, 0], &segments), Err(MachOError::BindSegment));
    assert_eq!(parse_bind_opcodes(&[0xe0], &segments), Err(MachOError::BindOpcode(0xe0)));
    assert_eq!(
        parse_rebase_opcodes(&[0x11, 0x20, 0x00, 0x60, 0x80], &segments),
        Err(MachOError::TruncatedUleb)
    );
}

#[test]
fn unsigned_images_are_kept() {
    let image = roomy_image(&[], b"linkedit");
    assert_eq!(remove_code_signature(image.clone()), Ok(image));
    assert_eq!(remove_code_signature(vec![0; 8]), Err(MachOError::TruncatedHeader));
}

#[test]
fn names_and_sizes_are_fixed() {
    assert_eq!(fixed_name("__TEXT"), Ok(*b"__TEXT\0\0\0\0\0\0\0\0\0\0"));
    assert_eq!(fixed_name("sixteen-long-xxx"), Ok(*b"sixteen-long-xxx"));
    assert_eq!(fixed_name("seventeen-long-xx"), Err(MachOError::BadName));
    assert_eq!(fixed_name("\u{e9}"), Err(MachOError::BadName));
    assert_eq!(align_up(5, 4), Ok(8));
    assert_eq!(align_up(8, 4), Ok(8));
    assert_eq!(align_up(u64::MAX, 4), Err(MachOError::AlignOverflow));
}

/// Chained fixups of three segments: a rebase and a bind in the second one.
fn chained_blob() -> Vec<u8> {
    let mut blob = Vec::new();
    for field in [0u32, 28, 68, 72, 1, 1, 0, 3, 0, 16, 0, 24] {
        blob.extend_from_slice(&field.to_le_bytes());
    }
    blob.extend_from_slice(&0x4000u16.to_le_bytes());
    blob.extend_from_slice(&6u16.to_le_bytes());
    blob.extend_from_slice(&TEST_PAGE.to_le_bytes());
    blob.extend_from_slice(&0u32.to_le_bytes());
    blob.extend_from_slice(&1u16.to_le_bytes());
    blob.extend_from_slice(&0x10u16.to_le_bytes());
    blob.extend_from_slice(&((1u32 << 9) | 1).to_le_bytes());
    blob.extend_from_slice(b"\0_game\0\0");
    blob
}

fn chained_image() -> Vec<u8> {
    let blob = chained_blob();
    let command: Vec<u8> = [0x8000_0034u32, 16, 2 * TEST_PAGE as u32, blob.len() as u32]
        .iter()
        .flat_map(|field| field.to_le_bytes())
        .collect();
    let mut data = roomy_image(&[command], &blob);
    let at = TEST_PAGE as usize + 0x10;
    data[at..at + 8].copy_from_slice(&(0x1000u64 | (2 << 51)).to_le_bytes());
    data[at + 8..at + 16].copy_from_slice(&(1u64 << 63).to_le_bytes());
    data
}

fn chained_fixups() -> Vec<Fixup> {
    let location = VM_BASE + TEST_PAGE + 0x10;
    vec![
        Fixup { location, target: FixupTarget::Rebase(VM_BASE + 0x1000) },
        Fixup { location: location + 8, target: FixupTarget::Bind(Some("game".to_string())) },
    ]
}

#[test]
fn chained_fixups_are_followed() {
    let data = chained_image();
    let image = MachOImage::parse(&data).unwrap();
    assert_eq!(image.fixups(), Ok(chained_fixups()));
    let location = VM_BASE + TEST_PAGE + 0x10;
    assert_eq!(image.rebased_pointer(location), Ok(VM_BASE + 0x1000));

    let at = 2 * TEST_PAGE as usize;
    let broken = |offset: usize, value: u32| {
        let mut data = chained_image();
        data[at + offset..at + offset + 4].copy_from_slice(&value.to_le_bytes());
        MachOImage::parse(&data).unwrap().fixups().err()
    };
    assert_eq!(broken(0, 1), Some(MachOError::FixupsVersion(1)));
    assert_eq!(broken(28, 2), Some(MachOError::ChainedSegmentCount));
    assert_eq!(broken(44, 21), Some(MachOError::ChainedTruncatedStarts));
    assert_eq!(broken(64, 0x0010_0002), Some(MachOError::ChainedTruncatedPages));
    assert_eq!(broken(64, 0x3ffc_0001), Some(MachOError::ChainedEscapesPage));
    assert_eq!(broken(64, 0x8001_0001), Some(MachOError::ChainedTruncatedMulti));
}

#[test]
fn unsupported_chains_are_passed_over() {
    let at = 2 * TEST_PAGE as usize;
    let mut data = chained_image();
    assert_eq!(MachOImage::parse(&data).unwrap().unsupported(), []);
    data[at + 20] = 2;
    let image = MachOImage::parse(&data).unwrap();
    assert_eq!(image.unsupported(), [Unsupported::Imports(2)]);
    assert_eq!(image.fixups().unwrap()[1].target, FixupTarget::Bind(None));
    data[at + 50] = 1;
    let image = MachOImage::parse(&data).unwrap();
    assert_eq!(image.unsupported(), [Unsupported::Imports(2), Unsupported::Pointers(1)]);
    assert_eq!(image.fixups(), Ok(Vec::new()));
    data[at] = 1;
    assert_eq!(MachOImage::parse(&data).unwrap().unsupported(), []);
}

#[test]
fn chained_fixups_cover_inserted_segments() {
    let inserted = insert_segments(chained_image(), &[spec("__ONE", b"first")]).unwrap();
    let image = MachOImage::parse(&inserted.data).unwrap();
    assert_eq!(image.segments().len(), 4);
    assert_eq!(image.fixups(), Ok(chained_fixups()));
}
