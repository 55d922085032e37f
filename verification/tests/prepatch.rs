use std::mem::size_of;

use object::macho;
use object::pod::bytes_of;
use object::{LittleEndian as LE, U32 as ObjectU32, U64 as ObjectU64};
use symgen::cmd::prepatch::apply::apply_prepatch;
use symgen::cmd::prepatch::arena::{scan_arenas, Arenas};
use symgen::cmd::prepatch::image::parse_image;
use symgen::cmd::prepatch::plan::plan_prepatch;
use symgen::cmd::prepatch::report::{
    hex_bytes, DeclarationReport, ModLibrary, PatchStatus, RecordKind,
};
use symgen::cmd::prepatch::resolve::{resolve_target, ResolvedDecl};
use symgen::cmd::prepatch::site::{
    ARENA_HEADER_SIZE, DEFAULT_ARENA_CAPACITY, PAGE_SIZE, RECORD_SIZE,
};
use symgen::cmd::prepatch::Report;
use symgen::util::arm64::{b, nop, Arm64Error};
use symgen::util::macho::{insert_segments, SectionSpec, SegmentSpec};
use symgen::util::manifest::{
    build_manifest, EmbeddedManifest, ManifestInput, ManifestSymbol, FLAG_CODE,
};
use symgen::util::modmeta::HookTarget;
use symgen::cmd::prepatch::arena::{find_site, has_protection};
use symgen::cmd::prepatch::report::{hex_addr, Failure, SymbolFault, TargetFault};
use symgen::cmd::prepatch::resolve::{lookup_code, target_label};
use symgen::cmd::prepatch::site::{
    add_delta, align_up, arena_capacity, encode_record, make_placement, segment_generation,
    segment_name, signed_delta,
};
use symgen::cmd::prepatch::{run, Action, Args, PrepatchError, PrepatchFault};
use symgen::util::macho::MachOError;
use symgen::util::manifest::ManifestError;

const BASE: u64 = 0x1_0000_0000;
const TARGET: u64 = BASE + 0x1000;
const TARGET_2: u64 = BASE + 0x1100;
const UUID: [u8; 16] = *b"prepatch-fixture";

fn segment(
    name: &[u8],
    vmaddr: u64,
    vmsize: u64,
    fileoff: u64,
    filesize: u64,
    protection: u32,
) -> macho::SegmentCommand64<LE> {
    let mut segment_name = [0u8; 16];
    segment_name[..name.len()].copy_from_slice(name);
    macho::SegmentCommand64 {
        cmd: ObjectU32::new(LE, macho::LC_SEGMENT_64),
        cmdsize: ObjectU32::new(LE, size_of::<macho::SegmentCommand64<LE>>() as u32),
        segname: segment_name,
        vmaddr: ObjectU64::new(LE, vmaddr),
        vmsize: ObjectU64::new(LE, vmsize),
        fileoff: ObjectU64::new(LE, fileoff),
        filesize: ObjectU64::new(LE, filesize),
        maxprot: ObjectU32::new(LE, protection),
        initprot: ObjectU32::new(LE, protection),
        nsects: ObjectU32::new(LE, 0),
        flags: ObjectU32::new(LE, 0),
    }
}

fn base_image() -> Vec<u8> {
    let command_size = 2 * size_of::<macho::SegmentCommand64<LE>>()
        + size_of::<macho::BuildVersionCommand<LE>>()
        + size_of::<macho::UuidCommand<LE>>();
    let header = macho::MachHeader64::<LE> {
        magic: ObjectU32::new(object::BigEndian, macho::MH_CIGAM_64),
        cputype: ObjectU32::new(LE, macho::CPU_TYPE_ARM64),
        cpusubtype: ObjectU32::new(LE, macho::CPU_SUBTYPE_ARM64_ALL),
        filetype: ObjectU32::new(LE, macho::MH_EXECUTE),
        ncmds: ObjectU32::new(LE, 4),
        sizeofcmds: ObjectU32::new(LE, command_size as u32),
        flags: ObjectU32::new(LE, macho::MH_NOUNDEFS | macho::MH_DYLDLINK | macho::MH_PIE),
        reserved: ObjectU32::new(LE, 0),
    };
    let text = segment(
        b"__TEXT",
        BASE,
        PAGE_SIZE,
        0,
        PAGE_SIZE,
        macho::VM_PROT_READ | macho::VM_PROT_EXECUTE,
    );
    let linkedit =
        segment(b"__LINKEDIT", BASE + PAGE_SIZE, PAGE_SIZE, PAGE_SIZE, 16, macho::VM_PROT_READ);
    let build_version = macho::BuildVersionCommand::<LE> {
        cmd: ObjectU32::new(LE, macho::LC_BUILD_VERSION),
        cmdsize: ObjectU32::new(LE, size_of::<macho::BuildVersionCommand<LE>>() as u32),
        platform: ObjectU32::new(LE, macho::PLATFORM_MACOS),
        minos: ObjectU32::new(LE, 0x000B_0000),
        sdk: ObjectU32::new(LE, 0x000B_0000),
        ntools: ObjectU32::new(LE, 0),
    };
    let uuid = macho::UuidCommand::<LE> {
        cmd: ObjectU32::new(LE, macho::LC_UUID),
        cmdsize: ObjectU32::new(LE, size_of::<macho::UuidCommand<LE>>() as u32),
        uuid: UUID,
    };

    let mut data = Vec::new();
    data.extend_from_slice(bytes_of(&header));
    data.extend_from_slice(bytes_of(&text));
    data.extend_from_slice(bytes_of(&linkedit));
    data.extend_from_slice(bytes_of(&build_version));
    data.extend_from_slice(bytes_of(&uuid));
    data.resize(PAGE_SIZE as usize + 16, 0);
    data[TARGET as usize - BASE as usize..TARGET as usize - BASE as usize + 4]
        .copy_from_slice(&nop().to_le_bytes());
    data[TARGET_2 as usize - BASE as usize..TARGET_2 as usize - BASE as usize + 4]
        .copy_from_slice(&nop().to_le_bytes());
    data
}

fn fixture() -> Vec<u8> {
    let (manifest, _) = build_manifest(&ManifestInput {
        build_id: UUID.to_vec(),
        symbols: vec![
            ManifestSymbol { name: "game_func".to_string(), rva: TARGET, flags: FLAG_CODE },
            ManifestSymbol { name: "game_func_2".to_string(), rva: TARGET_2, flags: FLAG_CODE },
        ],
    })
    .unwrap();
    insert_segments(base_image(), &[SegmentSpec {
        name: "__SYMDB".into(),
        data: manifest.clone(),
        max_prot: macho::VM_PROT_READ,
        init_prot: macho::VM_PROT_READ,
        sections: vec![SectionSpec {
            name: "__symdb",
            offset: 0,
            size: manifest.len() as u64,
            align: 3,
            flags: macho::S_REGULAR,
        }],
    }])
    .unwrap()
    .data
}

fn library() -> ModLibrary {
    ModLibrary {
        path: "mods/example/lib/apple-arm64/mod.dylib".to_string(),
        stem: Some("mod".to_string()),
        package: Some("example".to_string()),
        data: None,
    }
}

fn report(name: &str) -> Report {
    Report {
        binary: "fixture".to_string(),
        mode: "check",
        build_uuid: Some(hex_bytes(&UUID)),
        declarations: vec![DeclarationReport::new(
            &library(),
            RecordKind::Name,
            name.to_string(),
        )],
        failures: Vec::new(),
    }
}

fn many_targets(count: usize) -> (Vec<u8>, Vec<ResolvedDecl>, Report) {
    let mut original = fixture();
    let mut declarations = Vec::with_capacity(count);
    let mut resolved = Vec::with_capacity(count);
    for index in 0..count {
        let target = BASE + 0x2000 + u64::try_from(index).unwrap() * 4;
        let offset = usize::try_from(target - BASE).unwrap();
        original[offset..offset + 4].copy_from_slice(&nop().to_le_bytes());
        let name = format!("many_{index}");
        declarations.push(DeclarationReport::new(&library(), RecordKind::Name, name.clone()));
        resolved.push(ResolvedDecl { report_index: index, target, alias: name });
    }
    let report = Report {
        binary: "fixture".to_string(),
        mode: "check",
        build_uuid: Some(hex_bytes(&UUID)),
        declarations,
        failures: Vec::new(),
    };
    (original, resolved, report)
}

#[test]
fn arenas_are_additive_and_idempotent() {
    let original = fixture();
    let image = parse_image(&original).unwrap();
    let mut first_report = report("game_func");
    let first_resolved =
        [ResolvedDecl { report_index: 0, target: TARGET, alias: "game_func".to_string() }];

    let plan = plan_prepatch(&image, &first_resolved, &mut first_report.declarations).unwrap().unwrap();
    assert_eq!(plan.targets, [TARGET]);
    assert_eq!(plan.new_arena.as_ref().unwrap().capacity, DEFAULT_ARENA_CAPACITY);
    assert_eq!(first_report.declarations[0].patch_status, Some(PatchStatus::Added));
    let first_output = apply_prepatch(&original, &image, &plan).unwrap();

    let first_image = parse_image(&first_output).unwrap();
    let Arenas { arenas, sites, next_generation: _ } = scan_arenas(&first_image).unwrap();
    assert_eq!(arenas.len(), 1);
    assert_eq!(sites.len(), 1);
    assert_eq!(arenas[0].free_indices.len(), DEFAULT_ARENA_CAPACITY as usize - 1);
    assert_ne!(first_image.bytes_at(TARGET, 4).unwrap(), nop().to_le_bytes());
    EmbeddedManifest::parse_macho(&first_output).unwrap();

    let mut repeat_report = report("game_func");
    assert!(
        plan_prepatch(&first_image, &first_resolved, &mut repeat_report.declarations).unwrap().is_none()
    );
    assert_eq!(repeat_report.declarations[0].patch_status, Some(PatchStatus::Existing));

    let mut second_report = report("game_func_2");
    let second_resolved =
        [ResolvedDecl { report_index: 0, target: TARGET_2, alias: "game_func_2".to_string() }];
    let second_plan =
        plan_prepatch(&first_image, &second_resolved, &mut second_report.declarations).unwrap().unwrap();
    assert!(second_plan.new_arena.is_none());
    let second_output = apply_prepatch(&first_output, &first_image, &second_plan).unwrap();
    assert_eq!(second_output.len(), first_output.len());

    let second_image = parse_image(&second_output).unwrap();
    let Arenas { arenas, sites, next_generation: _ } = scan_arenas(&second_image).unwrap();
    assert_eq!(arenas.len(), 1);
    assert_eq!(sites.len(), 2);
    assert_eq!(arenas[0].free_indices.len(), DEFAULT_ARENA_CAPACITY as usize - 2);
    assert_ne!(second_image.bytes_at(TARGET_2, 4).unwrap(), nop().to_le_bytes());
}

#[test]
fn default_arena_fills_one_arm64_page() {
    assert_eq!(ARENA_HEADER_SIZE + u64::from(DEFAULT_ARENA_CAPACITY) * RECORD_SIZE, PAGE_SIZE);
    assert_eq!(DEFAULT_ARENA_CAPACITY, 372);
}

#[test]
fn oversized_request_fills_its_allocated_pages() {
    let count = DEFAULT_ARENA_CAPACITY as usize + 1;
    let (original, resolved, mut report) = many_targets(count);
    let image = parse_image(&original).unwrap();
    let plan = plan_prepatch(&image, &resolved, &mut report.declarations).unwrap().unwrap();
    assert_eq!(plan.new_arena.as_ref().unwrap().capacity, 744);
}

#[test]
fn a_full_arena_adds_another_generation() {
    let count = DEFAULT_ARENA_CAPACITY as usize + 1;
    let (original, resolved, mut report) = many_targets(count);
    let image = parse_image(&original).unwrap();
    let first_plan =
        plan_prepatch(&image, &resolved[..DEFAULT_ARENA_CAPACITY as usize], &mut report.declarations)
            .unwrap()
            .unwrap();
    let first_output = apply_prepatch(&original, &image, &first_plan).unwrap();
    let first_image = parse_image(&first_output).unwrap();

    let mut last_report = Report {
        binary: "fixture".to_string(),
        mode: "check",
        build_uuid: Some(hex_bytes(&UUID)),
        declarations: vec![DeclarationReport::new(
            &library(),
            RecordKind::Name,
            "last".to_string(),
        )],
        failures: Vec::new(),
    };
    let last = [ResolvedDecl {
        report_index: 0,
        target: resolved.last().unwrap().target,
        alias: "last".to_string(),
    }];
    let second_plan = plan_prepatch(&first_image, &last, &mut last_report.declarations).unwrap().unwrap();
    assert_eq!(second_plan.new_arena.as_ref().unwrap().generation, 1);
    assert_eq!(second_plan.new_arena.as_ref().unwrap().capacity, DEFAULT_ARENA_CAPACITY);
    let second_output = apply_prepatch(&first_output, &first_image, &second_plan).unwrap();
    let second_image = parse_image(&second_output).unwrap();
    let Arenas { arenas, sites, next_generation } = scan_arenas(&second_image).unwrap();
    assert_eq!(arenas.len(), 2);
    assert_eq!(sites.len(), count);
    assert_eq!(next_generation, 2);

    let (_, _, mut repeat_report) = many_targets(count);
    let repeat = plan_prepatch(&second_image, &resolved, &mut repeat_report.declarations).unwrap();
    assert!(repeat.is_none());
    for declaration in &repeat_report.declarations {
        assert_eq!(declaration.patch_status, Some(PatchStatus::Existing));
    }
}

#[test]
fn plan_reports_aliases() {
    let original = fixture();
    let image = parse_image(&original).unwrap();
    let mut report = report("game_func");
    let resolved =
        [ResolvedDecl { report_index: 0, target: TARGET, alias: "game_func".to_string() }];
    let plan = plan_prepatch(&image, &resolved, &mut report.declarations).unwrap().unwrap();
    assert_eq!(plan.targets, [TARGET]);
    assert_eq!(report.declarations[0].alias_group, ["game_func"]);
}

#[test]
fn member_resolution_matches_runtime_ordering() {
    let original = fixture();
    let image = parse_image(&original).unwrap();
    let manifest = EmbeddedManifest::parse_macho(&original).unwrap();

    let secondary_virtual = HookTarget::Mem {
        vtable: "missing_vtable".to_string(),
        display: "game_func".to_string(),
        symbol: None,
        virtual_slot: None,
    };
    assert_eq!(resolve_target(&image, &manifest, &secondary_virtual).unwrap(), TARGET);

    let primary_virtual = HookTarget::Mem {
        vtable: "missing_vtable".to_string(),
        display: "game_func_2".to_string(),
        symbol: None,
        virtual_slot: Some(0),
    };
    assert_eq!(resolve_target(&image, &manifest, &primary_virtual).unwrap(), TARGET_2);

    let direct = HookTarget::Mem {
        vtable: "missing_vtable".to_string(),
        display: "game_func_2".to_string(),
        symbol: Some("game_func".to_string()),
        virtual_slot: None,
    };
    assert_eq!(resolve_target(&image, &manifest, &direct).unwrap(), TARGET);
}

struct Section {
    name: &'static str,
    kind: u32,
    flags: u64,
    address: u64,
    data: Vec<u8>,
}

struct Symbol {
    name: &'static str,
    /// Binding in the upper half, type in the lower one.
    info: u8,
    visibility: u8,
    /// One-based index among the given sections; 0 is undefined.
    section: u16,
    value: u64,
}

fn pad(out: &mut Vec<u8>, align: usize) {
    while out.len() % align != 0 {
        out.push(0);
    }
}

fn add_string(table: &mut Vec<u8>, text: &str) -> u32 {
    let offset = table.len() as u32;
    table.extend_from_slice(text.as_bytes());
    table.push(0);
    offset
}

fn section_header(fields: [u64; 10]) -> Vec<u8> {
    let mut out = Vec::new();
    for (i, value) in fields.iter().enumerate() {
        if matches!(i, 0 | 1 | 6 | 7) {
            out.extend_from_slice(&(*value as u32).to_le_bytes());
        } else {
            out.extend_from_slice(&value.to_le_bytes());
        }
    }
    out
}

/// A little-endian ELF64 file: the given sections, then `.symtab`, `.strtab` and `.shstrtab`.
fn elf(kind: u16, machine: u16, sections: &[Section], symbols: &[Symbol]) -> Vec<u8> {
    let mut out = vec![0u8; 64];
    let mut names = vec![0u8];
    let mut headers = section_header([0; 10]);
    for section in sections {
        pad(&mut out, 16);
        let name = add_string(&mut names, section.name);
        headers.extend(section_header([
            name.into(),
            section.kind.into(),
            section.flags,
            section.address,
            out.len() as u64,
            section.data.len() as u64,
            0,
            0,
            8,
            0,
        ]));
        out.extend_from_slice(&section.data);
    }

    let mut strings = vec![0u8];
    let mut table = vec![0u8; 24];
    let mut locals = 1u64;
    for symbol in symbols {
        table.extend_from_slice(&add_string(&mut strings, symbol.name).to_le_bytes());
        table.push(symbol.info);
        table.push(symbol.visibility);
        table.extend_from_slice(&symbol.section.to_le_bytes());
        table.extend_from_slice(&symbol.value.to_le_bytes());
        table.extend_from_slice(&0u64.to_le_bytes());
        if symbol.info >> 4 == 0 {
            locals += 1;
        }
    }
    let count = sections.len() as u64;
    pad(&mut out, 16);
    let name = add_string(&mut names, ".symtab");
    headers.extend(section_header([
        name.into(),
        2,
        0,
        0,
        out.len() as u64,
        table.len() as u64,
        count + 2,
        locals,
        8,
        24,
    ]));
    out.extend_from_slice(&table);
    let name = add_string(&mut names, ".strtab");
    headers.extend(section_header([
        name.into(),
        3,
        0,
        0,
        out.len() as u64,
        strings.len() as u64,
        0,
        0,
        1,
        0,
    ]));
    out.extend_from_slice(&strings);
    let name = add_string(&mut names, ".shstrtab");
    headers.extend(section_header([
        name.into(),
        3,
        0,
        0,
        out.len() as u64,
        names.len() as u64,
        0,
        0,
        1,
        0,
    ]));
    out.extend_from_slice(&names);
    pad(&mut out, 8);
    let table_at = out.len() as u64;
    out.extend_from_slice(&headers);

    out[..16].copy_from_slice(b"\x7fELF\x02\x01\x01\0\0\0\0\0\0\0\0\0");
    out[16..18].copy_from_slice(&kind.to_le_bytes());
    out[18..20].copy_from_slice(&machine.to_le_bytes());
    out[20..24].copy_from_slice(&1u32.to_le_bytes());
    out[40..48].copy_from_slice(&table_at.to_le_bytes());
    out[52..54].copy_from_slice(&64u16.to_le_bytes());
    out[54..56].copy_from_slice(&56u16.to_le_bytes());
    out[58..60].copy_from_slice(&64u16.to_le_bytes());
    out[60..62].copy_from_slice(&(count as u16 + 4).to_le_bytes());
    out[62..64].copy_from_slice(&(count as u16 + 3).to_le_bytes());
    out
}

fn metadata_record(kind: u8, flags: u8, fields: &[u8]) -> Vec<u8> {
    let mut body = fields.to_vec();
    while (body.len() + 4) % 8 != 0 {
        body.push(0);
    }
    let mut out = ((body.len() + 4) as u16).to_le_bytes().to_vec();
    out.push(kind);
    out.push(flags);
    out.extend(body);
    out
}

fn header_record(abi: u32) -> Vec<u8> {
    metadata_record(1, 0, &abi.to_le_bytes())
}

fn hook_name_record(name: &str) -> Vec<u8> {
    let mut fields = vec![0u8; 12];
    fields.extend_from_slice(name.as_bytes());
    fields.push(0);
    metadata_record(6, 0, &fields)
}

const META_ADDRESS: u64 = 0x4000;

/// A mod library with the given metadata.
fn mod_library(records: &[Vec<u8>]) -> Vec<u8> {
    let data = records.concat();
    elf(
        3,
        183,
        &[Section { name: "modmeta", kind: 1, flags: 3, address: META_ADDRESS, data }],
        &[],
    )
}

fn prepatch_args(check: bool) -> Args {
    Args { binary: "game".to_string(), report: None, check, mods: Vec::new() }
}

fn hooking(names: &[&str]) -> ModLibrary {
    let mut records = vec![header_record(1)];
    records.extend(names.iter().map(|name| hook_name_record(name)));
    let mut library = library();
    library.data = Some(mod_library(&records));
    library
}

#[test]
fn an_executable_is_prepared_once() {
    let libraries = [hooking(&["game_func", "game_func_2", "game_func"])];
    let (report, result) = run(&prepatch_args(false), Some(fixture()), &libraries);
    assert_eq!((report.binary.as_str(), report.mode), ("game", "rewrite"));
    assert_eq!(report.build_uuid, Some(hex_bytes(&UUID)));
    assert!(report.failures.is_empty());
    assert_eq!(report.declarations.len(), 3);
    let first = &report.declarations[0];
    assert_eq!((first.mod_id.as_str(), first.name.as_str()), ("example", "game_func"));
    assert_eq!(first.record_kind.name(), "name");
    assert_eq!(first.resolved_target_vmaddr, Some(TARGET));
    assert_eq!(first.patch_status.map(|status| status.name()), Some("added"));
    assert_eq!(first.alias_group, ["game_func"]);
    let Ok(Action::Replace { data, added, existing }) = result else { panic!() };
    assert_eq!((added, existing), (2, 0));

    // What was reported is what is found in the new executable.
    let image = parse_image(&data).unwrap();
    let sites = scan_arenas(&image).unwrap().sites;
    assert_eq!(sites.len(), 2);
    let site = &sites[find_site(&sites, TARGET).unwrap()];
    assert_eq!(Some(site.placement.gateway), first.gateway_vmaddr);
    assert_eq!(Some(site.placement.slot), first.slot_vmaddr);
    assert_eq!(find_site(&sites, TARGET + 4), None);

    let (report, result) = run(&prepatch_args(false), Some(data), &libraries);
    assert_eq!(report.declarations[0].patch_status, Some(PatchStatus::Existing));
    assert!(matches!(result, Ok(Action::Existing { existing: 2 })));
}

#[test]
fn a_check_replaces_nothing() {
    let (report, result) = run(&prepatch_args(true), Some(fixture()), &[hooking(&["game_func"])]);
    assert_eq!(report.mode, "check");
    assert!(matches!(result, Ok(Action::Checked { declarations: 1 })));
    let (_, result) = run(&prepatch_args(true), Some(fixture()), &[]);
    assert!(matches!(result, Ok(Action::Nothing)));
}

#[test]
fn failures_are_reported() {
    let fault = |binary: Option<Vec<u8>>, libraries: &[ModLibrary]| {
        let (report, result) = run(&prepatch_args(false), binary, libraries);
        assert_eq!(report.failures.len(), 1);
        assert_eq!(result.err(), Some(report.failures[0]));
        (report.failures[0], report.declarations)
    };
    assert_eq!(fault(None, &[]).0, PrepatchFault::Unreadable);
    let fails = |error| PrepatchFault::Prepatch(error);
    assert_eq!(
        fault(Some(b"no image".to_vec()), &[]).0,
        fails(PrepatchError::Image(MachOError::UnknownKind))
    );
    let mut other = fixture();
    other[4..8].copy_from_slice(&macho::CPU_TYPE_X86_64.to_le_bytes());
    assert_eq!(fault(Some(other), &[]).0, fails(PrepatchError::NotArm64(macho::CPU_TYPE_X86_64)));
    let mut pointer_auth = fixture();
    pointer_auth[8..12].copy_from_slice(&macho::CPU_SUBTYPE_ARM64E.to_le_bytes());
    assert_eq!(fault(Some(pointer_auth), &[]).0, fails(PrepatchError::PointerAuth));
    assert_eq!(
        fault(Some(base_image()), &[]).0,
        fails(PrepatchError::Manifest(ManifestError::NoSection))
    );

    let (error, declarations) = fault(Some(fixture()), &[library()]);
    assert_eq!(error, fails(PrepatchError::Unresolved));
    assert!(matches!(declarations[0].failure, Some(Failure::Unreadable)));
    assert_eq!(declarations[0].record_kind.name(), "library");
    let (_, declarations) = fault(Some(fixture()), &[hooking(&["missing"])]);
    assert!(matches!(
        &declarations[0].failure,
        Some(Failure::Symbol { name, fault: SymbolFault::NotFound }) if name == "missing"
    ));

    let mut patched = fixture();
    let at = (TARGET - BASE) as usize;
    patched[at..at + 4].copy_from_slice(&0xd65f_03c0u32.to_le_bytes());
    let (error, declarations) = fault(Some(patched), &[hooking(&["game_func"])]);
    assert_eq!(error, fails(PrepatchError::NotPatchable));
    assert!(matches!(
        declarations[0].failure,
        Some(Failure::Target(TargetFault::Entry { target: TARGET, word: 0xd65f_03c0 }))
    ));
}

#[test]
fn records_hold_their_site() {
    let record = BASE + 0x8010;
    let slot = BASE + 0xc000;
    let placement = make_placement(TARGET, record, slot).unwrap();
    assert_eq!(placement.gateway, record + 12);
    let bytes = encode_record(TARGET, &placement).unwrap();
    assert_eq!(bytes.len() as u64, RECORD_SIZE);
    assert_eq!(&bytes[..4], b"PS01");
    let word = |at: usize| u32::from_le_bytes(bytes[at..at + 4].try_into().unwrap());
    assert_eq!(add_delta(placement.gateway, word(4)), Some(TARGET));
    assert_eq!(add_delta(placement.gateway, word(8)), Some(slot));
    assert_eq!(make_placement(u64::MAX, record, slot).err(), Some(PrepatchError::OriginalAddress));
    assert_eq!(
        make_placement(TARGET, TARGET + (1 << 33), slot).err(),
        Some(PrepatchError::Encoding(Arm64Error::OutOfRange))
    );
    assert_eq!(
        make_placement(TARGET, record, slot + (1 << 33)).err(),
        Some(PrepatchError::SlotRange)
    );
}

#[test]
fn plans_are_written_where_their_sites_are() {
    let original = fixture();
    let image = parse_image(&original).unwrap();
    let mut first_report = report("game_func");
    let resolved =
        [ResolvedDecl { report_index: 0, target: TARGET, alias: "game_func".to_string() }];
    let plan = plan_prepatch(&image, &resolved, &mut first_report.declarations).unwrap().unwrap();
    let gateway = plan.placements[0].gateway;
    let first_output = apply_prepatch(&original, &image, &plan).unwrap();
    let first_image = parse_image(&first_output).unwrap();
    assert_eq!(
        first_image.bytes_at(TARGET, 4).unwrap(),
        b(TARGET, gateway).unwrap().to_le_bytes()
    );

    let mut second_report = report("game_func_2");
    let resolved =
        [ResolvedDecl { report_index: 0, target: TARGET_2, alias: "game_func_2".to_string() }];
    let plan =
        plan_prepatch(&first_image, &resolved, &mut second_report.declarations).unwrap().unwrap();
    assert!(plan.new_arena.is_none());
    let placement = &plan.placements[0];
    let second_output = apply_prepatch(&first_output, &first_image, &plan).unwrap();
    let second_image = parse_image(&second_output).unwrap();
    assert_eq!(
        second_image.bytes_at(placement.record, RECORD_SIZE as usize).unwrap(),
        encode_record(TARGET_2, placement).unwrap()
    );
    assert_eq!(
        second_image.bytes_at(TARGET_2, 4).unwrap(),
        b(TARGET_2, placement.gateway).unwrap().to_le_bytes()
    );

    // Nothing else has changed.
    let record = first_image.vm_to_file(placement.record, RECORD_SIZE).unwrap();
    let target = first_image.vm_to_file(TARGET_2, 4).unwrap();
    for at in 0..first_output.len() {
        let planned = (record..record + RECORD_SIZE as usize).contains(&at)
            || (target..target + 4).contains(&at);
        assert!(planned || first_output[at] == second_output[at]);
    }
}

#[test]
fn site_arithmetic() {
    assert_eq!(align_up(1, 0x4000), Ok(0x4000));
    assert_eq!(align_up(0x8000, 0x4000), Ok(0x8000));
    assert_eq!(align_up(u64::MAX, 0x4000), Err(PrepatchError::SegmentSize));
    assert_eq!(arena_capacity(1), Ok(372));
    assert_eq!(arena_capacity(373), Ok(744));
    assert_eq!(arena_capacity(u32::MAX), Ok(u32::MAX));
    assert_eq!(signed_delta(16, 8), Some((-8i32) as u32));
    assert_eq!(signed_delta(0, 0x8000_0000), None);
    assert_eq!(add_delta(8, (-16i32) as u32), None);
    assert_eq!(segment_name(b"__PPATCH", 0x1f), b"__PPATCH0000001F");
    assert_eq!(segment_generation(b"__PPATCH0000001F", b"__PPATCH"), Some(0x1f));
    assert_eq!(segment_generation(b"__PPATCH+000001f", b"__PPATCH"), Some(0x1f));
    assert_eq!(segment_generation(b"__PPATCH0000001F", b"__PPDATA"), None);
    assert_eq!(segment_generation(b"__PPATCH0000001G", b"__PPATCH"), None);
    assert_eq!(hex_addr(0x1_0000_1000), "0x0000000100001000");
}

#[test]
fn targets_are_looked_up() {
    let original = fixture();
    let image = parse_image(&original).unwrap();
    let manifest = EmbeddedManifest::parse_macho(&original).unwrap();
    assert_eq!(lookup_code(&manifest, "game_func"), Ok(TARGET));
    assert_eq!(lookup_code(&manifest, "other"), Err(SymbolFault::NotFound));
    let (kind, label) = target_label(&HookTarget::Fn { symbol: None });
    assert_eq!(kind.name(), "fn");
    assert_eq!(label, "<fn>");
    let readable = macho::VM_PROT_READ | macho::VM_PROT_EXECUTE;
    assert!(has_protection(&image, TARGET, 4, readable));
    assert!(!has_protection(&image, TARGET, 4, macho::VM_PROT_WRITE));
    assert!(matches!(
        resolve_target(&image, &manifest, &HookTarget::Fn { symbol: None }),
        Err(Failure::NoSymbol)
    ));
}
