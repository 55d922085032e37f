use symgen::cmd::manifest::aliases::{canonical_name, SourceRoot};
use symgen::cmd::manifest::provenance::BuildInfo;
use std::collections::HashMap;

use symgen::cmd::manifest::aliases::{binary_name, FunctionRecord};
use symgen::cmd::manifest::apple::{self, AppleError, MapEntry, MappedObject};
use symgen::cmd::manifest::dwarf::{
    elf_aliases, linkage, object_source, sort_code, source, CodeSymbol, DwarfError, EntryFact,
    Language, Origin, Subprogram, UnitCode, UnitFact,
};
use symgen::cmd::manifest::names::{
    choose_display, display_name, is_rust_legacy, is_skip_symbol, is_special_mangled,
};
use symgen::cmd::manifest::pdb::{
    collect_inlined_names, encode_identity, pdb_build_id, read_pdb, FunctionId, InlineeFacts,
    PdbFacts, PdbIdentity, PublicFact, RecordFact,
};
use symgen::cmd::manifest::provenance::{
    is_source_file, source_of_files, ModuleSymbol, Primary, ProvenanceError,
};
use symgen::cmd::manifest::{run, select_source, Args, Input, ManifestFault, Source};
use symgen::util::embed::EmbedError;
use symgen::util::manifest::{
    EmbeddedManifest, LookupError, ManifestSymbol, FLAG_CODE, FLAG_DATA, FLAG_DISPLAY, FLAG_INLINE_SITES, FLAG_LOCAL,
};

#[test]
fn lexical_source_scope() {
    let root = SourceRoot::new("/checkout/game").unwrap();
    for (name, dir, expected) in [
        ("./src/../src/a.cpp", "/checkout/game", Some("src/a.cpp")),
        ("../src/a.cpp", "/checkout/game/build", Some("src/a.cpp")),
        ("/checkout/game/src/missing.cpp", "", Some("src/missing.cpp")),
        ("vendor/lib.cpp", "", Some("vendor/lib.cpp")),
        ("generated/a.cpp", "build/debug", Some("build/debug/generated/a.cpp")),
        ("/checkout/game-extra/a.cpp", "", None),
        ("../outside.cpp", "", None),
        ("/checkout/Game/src/a.cpp", "", None),
        ("", "", None),
    ] {
        assert_eq!(root.source(name, dir).as_deref(), expected, "{name} in {dir}");
    }
}

#[test]
fn windows_paths_on_any_host() {
    let root = SourceRoot::new(r"C:\Checkout\Game Space").unwrap();
    assert_eq!(
        root.source(r"c:/CHECKOUT/game space\src/./A.cpp", "").as_deref(),
        Some("src/A.cpp")
    );
    assert_eq!(
        root.source(r"..\src\A.cpp", r"c:\checkout\Game Space/build").as_deref(),
        Some("src/A.cpp")
    );
    assert_eq!(root.source("D:/Checkout/Game Space/src/A.cpp", ""), None);
    assert_eq!(root.source("C:/Checkout/Game Space2/src/A.cpp", ""), None);
    let root = SourceRoot::new(r"\\Server\Share\Game").unwrap();
    assert_eq!(root.source("//server/share/game/src/A.cpp", "").as_deref(), Some("src/A.cpp"));
    assert_eq!(root.source("//server/other/game/src/A.cpp", ""), None);
}

#[test]
fn names_preserve_operators_and_named_scopes() {
    for name in [
        "ns::(anonymous namespace)::Thing::operator()",
        "ns::`anonymous namespace'::Thing::operator()",
    ] {
        assert_eq!(canonical_name(name).as_deref(), Some("ns::Thing::operator()"));
    }
    assert_eq!(canonical_name("ns::action").as_deref(), Some("ns::action"));
    assert!(canonical_name("`f'::`2'::local").is_none());
}

#[test]
fn build_info_resolves_string_lists_and_rejects_cycles() {
    let mut info = BuildInfo::default();
    info.strings.insert(1, (None, "C:/checkout/".into()));
    info.strings.insert(2, (Some(3), "src/a.cpp".into()));
    info.lists.insert(3, vec![1]);
    assert_eq!(info.string(2, 0).unwrap(), "C:/checkout/src/a.cpp");
    info.lists.insert(3, vec![2]);
    assert!(info.string(2, 0).unwrap_err().message().contains("Cyclic"));
    assert!(info.string(4, 0).unwrap_err().message().contains("Missing"));
}

struct Section {
    name: &'static str,
    kind: u32,
    flags: u64,
    address: u64,
    data: Vec<u8>,
}

struct Symbol {
    name: &'static str,
    /// Binding in the upper half, type in the lower one.
    info: u8,
    visibility: u8,
    /// One-based index among the given sections; 0 is undefined.
    section: u16,
    value: u64,
}

fn pad(out: &mut Vec<u8>, align: usize) {
    while out.len() % align != 0 {
        out.push(0);
    }
}

fn add_string(table: &mut Vec<u8>, text: &str) -> u32 {
    let offset = table.len() as u32;
    table.extend_from_slice(text.as_bytes());
    table.push(0);
    offset
}

fn section_header(fields: [u64; 10]) -> Vec<u8> {
    let mut out = Vec::new();
    for (i, value) in fields.iter().enumerate() {
        if matches!(i, 0 | 1 | 6 | 7) {
            out.extend_from_slice(&(*value as u32).to_le_bytes());
        } else {
            out.extend_from_slice(&value.to_le_bytes());
        }
    }
    out
}

/// A little-endian ELF64 file: the given sections, then `.symtab`, `.strtab` and `.shstrtab`.
fn elf(kind: u16, machine: u16, sections: &[Section], symbols: &[Symbol]) -> Vec<u8> {
    let mut out = vec![0u8; 64];
    let mut names = vec![0u8];
    let mut headers = section_header([0; 10]);
    for section in sections {
        pad(&mut out, 16);
        let name = add_string(&mut names, section.name);
        headers.extend(section_header([
            name.into(),
            section.kind.into(),
            section.flags,
            section.address,
            out.len() as u64,
            section.data.len() as u64,
            0,
            0,
            8,
            0,
        ]));
        out.extend_from_slice(&section.data);
    }

    let mut strings = vec![0u8];
    let mut table = vec![0u8; 24];
    let mut locals = 1u64;
    for symbol in symbols {
        table.extend_from_slice(&add_string(&mut strings, symbol.name).to_le_bytes());
        table.push(symbol.info);
        table.push(symbol.visibility);
        table.extend_from_slice(&symbol.section.to_le_bytes());
        table.extend_from_slice(&symbol.value.to_le_bytes());
        table.extend_from_slice(&0u64.to_le_bytes());
        if symbol.info >> 4 == 0 {
            locals += 1;
        }
    }
    let count = sections.len() as u64;
    pad(&mut out, 16);
    let name = add_string(&mut names, ".symtab");
    headers.extend(section_header([
        name.into(),
        2,
        0,
        0,
        out.len() as u64,
        table.len() as u64,
        count + 2,
        locals,
        8,
        24,
    ]));
    out.extend_from_slice(&table);
    let name = add_string(&mut names, ".strtab");
    headers.extend(section_header([
        name.into(),
        3,
        0,
        0,
        out.len() as u64,
        strings.len() as u64,
        0,
        0,
        1,
        0,
    ]));
    out.extend_from_slice(&strings);
    let name = add_string(&mut names, ".shstrtab");
    headers.extend(section_header([
        name.into(),
        3,
        0,
        0,
        out.len() as u64,
        names.len() as u64,
        0,
        0,
        1,
        0,
    ]));
    out.extend_from_slice(&names);
    pad(&mut out, 8);
    let table_at = out.len() as u64;
    out.extend_from_slice(&headers);

    out[..16].copy_from_slice(b"\x7fELF\x02\x01\x01\0\0\0\0\0\0\0\0\0");
    out[16..18].copy_from_slice(&kind.to_le_bytes());
    out[18..20].copy_from_slice(&machine.to_le_bytes());
    out[20..24].copy_from_slice(&1u32.to_le_bytes());
    out[40..48].copy_from_slice(&table_at.to_le_bytes());
    out[52..54].copy_from_slice(&64u16.to_le_bytes());
    out[54..56].copy_from_slice(&56u16.to_le_bytes());
    out[58..60].copy_from_slice(&64u16.to_le_bytes());
    out[60..62].copy_from_slice(&(count as u16 + 4).to_le_bytes());
    out[62..64].copy_from_slice(&(count as u16 + 3).to_le_bytes());
    out
}

const PAGE: u64 = 0x4000;
const BASE: u64 = 0x1_0000_0000;
const UUID: [u8; 16] = *b"manifest-fixture";

struct MachSymbol {
    name: &'static str,
    kind: u8,
    section: u8,
    value: u64,
}

/// An arm64 Mach-O file with one `__text` section and the given symbols.
fn macho_file(filetype: u32, symbols: &[MachSymbol]) -> Vec<u8> {
    let mut strings = vec![0u8];
    let mut table = Vec::new();
    for symbol in symbols {
        let offset = if symbol.name.is_empty() { 0 } else { strings.len() as u32 };
        strings.extend_from_slice(symbol.name.as_bytes());
        if !symbol.name.is_empty() {
            strings.push(0);
        }
        table.extend_from_slice(&offset.to_le_bytes());
        table.push(symbol.kind);
        table.push(symbol.section);
        table.extend_from_slice(&0u16.to_le_bytes());
        table.extend_from_slice(&symbol.value.to_le_bytes());
    }
    let linkedit = (table.len() + strings.len()) as u64;

    let mut commands = Vec::new();
    let mut segment = |name: &[u8], address: u64, fileoff: u64, filesize: u64, sections: u32| {
        commands.extend_from_slice(&0x19u32.to_le_bytes());
        commands.extend_from_slice(&(72 + 80 * sections).to_le_bytes());
        let mut stored = name.to_vec();
        stored.resize(16, 0);
        commands.extend_from_slice(&stored);
        for field in [address, PAGE, fileoff, filesize] {
            commands.extend_from_slice(&field.to_le_bytes());
        }
        for field in [5u32, 5, sections, 0] {
            commands.extend_from_slice(&field.to_le_bytes());
        }
        if sections == 1 {
            let mut section = b"__text".to_vec();
            section.resize(16, 0);
            section.extend_from_slice(&stored);
            section.extend_from_slice(&(address + 0x1000).to_le_bytes());
            section.extend_from_slice(&0x100u64.to_le_bytes());
            for field in [0x1000u32, 2, 0, 0, 0x8000_0400, 0, 0, 0] {
                section.extend_from_slice(&field.to_le_bytes());
            }
            commands.extend(section);
        }
    };
    segment(b"__TEXT", BASE, 0, PAGE, 1);
    segment(b"__LINKEDIT", BASE + PAGE, PAGE, linkedit, 0);
    let fields =
        [2u32, 24, PAGE as u32, symbols.len() as u32, PAGE as u32 + table.len() as u32, strings.len() as u32];
    for field in fields {
        commands.extend_from_slice(&field.to_le_bytes());
    }
    commands.extend_from_slice(&[0x1b, 0, 0, 0, 24, 0, 0, 0]);
    commands.extend_from_slice(&UUID);

    let mut out = Vec::new();
    for field in [0xfeed_facfu32, 0x0100_000c, 0, filetype, 4, commands.len() as u32, 0, 0] {
        out.extend_from_slice(&field.to_le_bytes());
    }
    out.extend(commands);
    out.resize(PAGE as usize, 0);
    out.extend(table);
    out.extend(strings);
    out
}

/// An archive of the given members.
fn archive(members: &[(&str, &[u8])]) -> Vec<u8> {
    let mut out = b"!<arch>\n".to_vec();
    for (name, data) in members {
        let header =
            format!("{:<16}{:<12}{:<6}{:<6}{:<8}{:<10}`\n", format!("{name}/"), 0, 0, 0, 644, data.len());
        out.extend_from_slice(header.as_bytes());
        out.extend_from_slice(data);
        if data.len() % 2 != 0 {
            out.push(b'\n');
        }
    }
    out
}

fn manifest_args() -> Args {
    Args {
        pdb: None,
        binary: Some("game".to_string()),
        out: Some("game.symdb".to_string()),
        embed: None,
        no_compress: true,
    }
}

fn note(id: &[u8]) -> Section {
    let mut data = Vec::new();
    for field in [4u32, id.len() as u32, 3] {
        data.extend_from_slice(&field.to_le_bytes());
    }
    data.extend_from_slice(b"GNU\0");
    data.extend_from_slice(id);
    Section { name: ".note.gnu.build-id", kind: 7, flags: 2, address: 0, data }
}

fn elf_symbols() -> Vec<Symbol> {
    let symbol = |name, info, section, value| Symbol { name, info, visibility: 0, section, value };
    vec![
        symbol("helper", 0x02, 1, 0x1010),
        symbol("ltmp0", 0x02, 1, 0x1000),
        symbol("_ZN4Game4tickEv", 0x12, 1, 0x1000),
        symbol("state", 0x11, 2, 0x2000),
        symbol("imported", 0x12, 0, 0),
    ]
}

fn elf_game(note: Section) -> Vec<u8> {
    let text =
        Section { name: ".text", kind: 1, flags: 6, address: 0x1000, data: vec![0xc3; 32] };
    let data = Section { name: ".data", kind: 1, flags: 3, address: 0x2000, data: vec![0; 8] };
    let descriptor = Section {
        name: "symdbh",
        kind: 1,
        flags: 3,
        address: 0x3000,
        data: [b"SYMDBHDR".as_slice(), &[0; 16]].concat(),
    };
    elf(3, 62, &[text, data, descriptor, note], &elf_symbols())
}

#[test]
fn an_elf_binary_is_listed_by_its_build_id() {
    let input = Input::Binary(elf_game(note(&UUID)));
    let plain = run(&manifest_args(), &input, None).unwrap();
    assert_eq!(plain.entries, 4);
    assert!(plain.image.is_none());
    let manifest = EmbeddedManifest::parse_blob(&plain.manifest, UUID).unwrap();
    let found = |name: &str| manifest.lookup(name).map(|found| (found.vmaddr, found.flags)).ok();
    assert_eq!(found("_ZN4Game4tickEv"), Some((0x1000, FLAG_CODE)));
    assert_eq!(found("Game::tick"), Some((0x1000, FLAG_CODE | FLAG_DISPLAY)));
    assert_eq!(found("helper"), Some((0x1010, FLAG_CODE | FLAG_LOCAL)));
    assert_eq!(found("state"), Some((0x2000, FLAG_DATA)));
    assert_eq!(manifest.lookup("imported").err(), Some(LookupError::NotFound));

    let mut args = manifest_args();
    args.no_compress = false;
    let packed = run(&args, &input, None).unwrap();
    assert_ne!(packed.manifest, plain.manifest);
    let manifest = EmbeddedManifest::parse_blob(&packed.manifest, UUID).unwrap();
    assert_eq!(manifest.lookup("state").unwrap().vmaddr, 0x2000);
}

#[test]
fn a_manifest_is_embedded() {
    let binary = elf_game(note(&UUID));
    let mut args = manifest_args();
    args.out = None;
    args.embed = Some("game".to_string());
    let input = Input::Binary(binary.clone());
    let output = run(&args, &input, Some(binary)).unwrap();
    let image = output.image.unwrap();
    let at = image.windows(8).position(|bytes| bytes == b"SYMDBHDR").unwrap();
    let word = |at: usize| u64::from_le_bytes(image[at..at + 8].try_into().unwrap()) as usize;
    let (rva, size) = (word(at + 8), word(at + 16));
    assert_eq!(image[rva..rva + size], output.manifest);

    assert_eq!(run(&args, &input, None).err(), Some(ManifestFault::NoImage));
    assert_eq!(
        run(&args, &input, Some(b"no image".to_vec())).err(),
        Some(ManifestFault::Embed(EmbedError::ParseFailed))
    );
}

#[test]
fn a_macho_binary_is_listed_without_its_underscore() {
    let image = macho_file(
        2,
        &[
            MachSymbol { name: "__ZN4Game4tickEv", kind: 0x0f, section: 1, value: BASE + 0x1000 },
            MachSymbol { name: "_local", kind: 0x0e, section: 1, value: BASE + 0x1020 },
        ],
    );
    let output = run(&manifest_args(), &Input::Binary(image), None).unwrap();
    let manifest = EmbeddedManifest::parse_blob(&output.manifest, UUID).unwrap();
    assert_eq!(manifest.lookup("_ZN4Game4tickEv").unwrap().vmaddr, BASE + 0x1000);
    assert_eq!(manifest.lookup("Game::tick").unwrap().vmaddr, BASE + 0x1000);
    assert_eq!(manifest.lookup("local").unwrap().flags, FLAG_CODE | FLAG_LOCAL);
}

#[test]
fn manifest_faults() {
    let mut args = manifest_args();
    args.binary = None;
    assert_eq!(select_source(&args), Err(ManifestFault::NoInput));
    args.pdb = Some("game.pdb".to_string());
    assert_eq!(select_source(&args), Ok(Source::Pdb));
    args.out = None;
    assert_eq!(select_source(&args), Err(ManifestFault::NoOutput));
    let fault = |data: &[u8]| run(&manifest_args(), &Input::Binary(data.to_vec()), None).err();
    assert_eq!(fault(b"no binary"), Some(ManifestFault::BadBinary));
    let other = Section { name: ".note", kind: 7, flags: 2, address: 0, data: Vec::new() };
    assert_eq!(fault(&elf_game(other)), Some(ManifestFault::NoBuildId));
    assert_eq!(fault(&pe_file()), Some(ManifestFault::NoBuildId));
}

/// A PE image without sections.
fn pe_file() -> Vec<u8> {
    let mut out = b"MZ".to_vec();
    out.resize(60, 0);
    out.extend(64u32.to_le_bytes());
    out.extend(b"PE\0\0");
    let optional: u16 = 240;
    out.extend(0x8664u16.to_le_bytes());
    out.resize(64 + 4 + 16, 0);
    out.extend(optional.to_le_bytes());
    out.extend(0x0022u16.to_le_bytes());
    let start = out.len();
    out.extend(0x020bu16.to_le_bytes());
    out.resize(start + 108, 0);
    out.extend(16u32.to_le_bytes());
    out.resize(start + optional as usize, 0);
    out
}

#[test]
fn display_names_have_no_parameters() {
    assert_eq!(display_name("_ZN4Game4moveEiPKc").as_deref(), Some("Game::move"));
    assert_eq!(display_name("_ZNK4GameeqERKS_").as_deref(), Some("Game::operator=="));
    assert_eq!(display_name("plain"), None);
    assert_eq!(display_name("_ZTV4Game"), None);
    assert_eq!(display_name("_ZN4core3fmt17h0123456789abcdefE"), None);
    assert_eq!(display_name("_Z1fIiEvT_").as_deref(), Some("f<int>"));
    assert_eq!(display_name(&format!("_Z1fT{}_", isize::MAX)), None);
    assert_eq!(choose_display("_Z1f", None), None);
    assert_eq!(choose_display("_Z1f", Some("_Z1f".to_string())), None);
    assert_eq!(choose_display("_Z1f", Some(String::new())), None);
    assert_eq!(choose_display("_Z1f", Some("f".to_string())).as_deref(), Some("f"));
    assert_eq!(choose_display("_ZTV1A", Some("f".to_string())), None);
    assert!(is_rust_legacy("core::fmt::h0123456789abcdef"));
    assert!(!is_rust_legacy("core::fmt::h0123456789abcdeg"));
    assert!(!is_rust_legacy("::h0123456789abcdef::x"));
    assert!(is_special_mangled("_ZZ4mainE1x"));
    assert!(is_skip_symbol("OUTLINED_FUNCTION_3"));
    assert!(!is_skip_symbol("outlined"));
}

fn public(name: &str, rva: Option<u32>, function: bool) -> PublicFact {
    PublicFact { name: name.to_string(), rva, function }
}

fn record(name: &str, rva: Option<u32>, code: bool, global: bool) -> RecordFact {
    RecordFact { name: name.to_string(), rva, code, global }
}

fn inlinees() -> InlineeFacts {
    let function = |name: &str, scope, parent_class| FunctionId {
        name: name.to_string(),
        scope,
        parent_class,
    };
    InlineeFacts {
        class_names: HashMap::from([(7, "Game".to_string())]),
        functions: HashMap::from([
            (1, function("tick", None, Some(7))),
            (2, function("free", Some(9), None)),
            (3, function("bare", Some(10), None)),
            (4, function("lone", None, Some(8))),
        ]),
        scope_strings: HashMap::from([(9, "ns".to_string())]),
        inlinees: vec![1, 3, 2, 99, 1, 4],
    }
}

#[test]
fn inlined_functions_are_named_by_their_scope() {
    let names = collect_inlined_names(&inlinees());
    let names: Vec<String> =
        names.into_iter().map(|name| String::from_utf8(name).unwrap()).collect();
    assert_eq!(names, ["Game::tick", "bare", "lone", "ns::free"]);
}

/// A PDB of five pages: the header, where its directory is, the directory, and the streams of the
/// PDB's own and of the debug information.
fn program_database(age: u32, debug_age: u32) -> Vec<u8> {
    let mut pages = vec![Vec::new(); 5];
    pages[0].extend_from_slice(b"Microsoft C/C++ MSF 7.00\r\n\x1a\x44\x53\0\0\0");
    let numbers = |values: &[u32]| -> Vec<u8> {
        values.iter().flat_map(|value| value.to_le_bytes()).collect()
    };
    pages[0].extend(numbers(&[0x1000, 1, 5, 28, 0, 1]));
    pages[1] = numbers(&[2]);
    pages[2] = numbers(&[4, 0, 32, 0, 64, 3, 4]);
    pages[3] = numbers(&[20000404, 0, age]);
    pages[3].extend_from_slice(b"3210547689abcdef");
    pages[3].extend(numbers(&[0]));
    pages[4] = numbers(&[u32::MAX, 19990903, debug_age]);
    for page in &mut pages {
        page.resize(0x1000, 0);
    }
    pages.concat()
}

#[test]
fn a_pdb_is_told_by_its_build_id() {
    let data = program_database(1, 3);
    assert_eq!(pdb_build_id(&data).unwrap(), b"0123456789abcdef\x03\0\0\0");
    assert_eq!(pdb_build_id(&program_database(9, 0)).unwrap(), b"0123456789abcdef\x09\0\0\0");
    assert_eq!(pdb_build_id(&data[..0x3000]), None);
    assert_eq!(pdb_build_id(b"Microsoft C/C++"), None);
    let identity = PdbIdentity { guid: [7; 16], age: 2, debug_age: None };
    assert_eq!(encode_identity(&identity)[12..], [7, 7, 7, 7, 2, 0, 0, 0]);
}

#[test]
fn a_pdb_is_listed_with_its_inline_sites() {
    let facts = PdbFacts {
        publics: vec![
            public("?tick@Game@@QEAAXXZ", Some(0x1000), true),
            public("?state@@3HA", Some(0x2000), false),
            public("__imp_Sleep", Some(0x3000), false),
            public("?gone@@YAXXZ", None, true),
        ],
        records: vec![
            record("Game::tick", Some(0x1000), true, true),
            record("helper", Some(0x1100), true, false),
            record("discarded", Some(0), true, true),
            record("state", Some(0x2000), false, false),
        ],
        inlinees: Some(inlinees()),
    };
    let input = read_pdb(&program_database(1, 3), &facts).unwrap();
    assert_eq!(input.build_id, b"0123456789abcdef\x03\0\0\0");
    let listed: Vec<(&str, u64, u32)> =
        input.symbols.iter().map(|s| (s.name.as_str(), s.rva, s.flags)).collect();
    assert_eq!(
        listed,
        [
            ("?tick@Game@@QEAAXXZ", 0x1000, FLAG_CODE | FLAG_INLINE_SITES),
            ("?state@@3HA", 0x2000, FLAG_DATA),
            ("Game::tick", 0x1000, FLAG_CODE | FLAG_INLINE_SITES),
            ("helper", 0x1100, FLAG_CODE | FLAG_LOCAL),
            ("state", 0x2000, FLAG_DATA | FLAG_LOCAL),
        ]
    );
    let mut bare = facts;
    bare.inlinees = None;
    let old = program_database(1, 0);
    let input = read_pdb(&old, &bare).unwrap();
    assert_eq!(&input.build_id[16..], &[1, 0, 0, 0]);
    assert_eq!(read_pdb(b"no PDB", &bare).err(), Some(ManifestFault::BadPdb));
    assert!(input.symbols.iter().all(|symbol| symbol.flags & FLAG_INLINE_SITES == 0));
    let output = run(&manifest_args(), &Input::Pdb(old, bare), None).unwrap();
    assert_eq!(output.entries, 5);
}

#[test]
fn function_aliases_are_scoped_by_their_source() {
    assert_eq!(binary_name("plain", true).as_deref(), Some("plain"));
    assert_eq!(binary_name("plain", false), None);
    assert_eq!(binary_name("_ZN1A1fEv", true).as_deref(), Some("A::f"));
    assert_eq!(binary_name("_ZTV1A", true), None);
    let record = |name: &str| FunctionRecord {
        source: "src/a.cpp".to_string(),
        name: name.to_string(),
        rva: 0x10,
        flags: FLAG_LOCAL,
        provenance: "a.o".to_string(),
    };
    let alias = record("(anonymous namespace)::f").into_alias().unwrap();
    assert_eq!(alias.name, "src/a.cpp#f");
    assert_eq!((alias.rva, alias.flags), (0x10, FLAG_LOCAL | FLAG_CODE | FLAG_DISPLAY));
    assert!(record("f::{lambda()#1}").into_alias().is_none());
    assert!(record("").into_alias().is_none());
}

fn root() -> SourceRoot {
    SourceRoot::new("/game").unwrap()
}

#[test]
fn a_source_path_stands_for_itself() {
    let root = root();
    let path = root.source("src/../src/./a.cpp", "/game").unwrap();
    assert_eq!(path, "src/a.cpp");
    assert_eq!(root.source(&path, "/game").as_deref(), Some("src/a.cpp"));
    assert!(SourceRoot::new("relative/root").is_err());
}

fn unit(language: Language, name: &str) -> UnitFact {
    UnitFact { language, name: Some(name.to_string()), comp_dir: Some("/game".to_string()) }
}

#[test]
fn units_are_owned_by_their_source() {
    let root = root();
    assert_eq!(source(&unit(Language::Code(4), "src/a.cpp"), &root), Ok(Some("src/a.cpp".into())));
    assert_eq!(source(&unit(Language::Code(4), "/lib/a.cpp"), &root), Ok(None));
    assert_eq!(source(&unit(Language::Code(0x1c), "src/lib.rs"), &root), Ok(None));
    assert_eq!(source(&unit(Language::Other, "src/a.cpp"), &root), Ok(None));
    assert_eq!(source(&unit(Language::Missing, "/lib/a.s"), &root), Ok(None));
    assert_eq!(source(&unit(Language::Missing, "a.s"), &root), Err(DwarfError::NoLanguage));
    assert_eq!(source(&unit(Language::Code(2), ""), &root), Err(DwarfError::NoName));
    let unnamed = UnitFact { language: Language::Code(2), name: None, comp_dir: None };
    assert_eq!(source(&unnamed, &root), Err(DwarfError::NotUtf8));

    let inside = || unit(Language::Code(4), "a.cpp");
    let outside = || unit(Language::Code(4), "/b.cpp");
    assert_eq!(object_source(&[], &root), Err(DwarfError::NoUnits));
    assert_eq!(object_source(&[inside()], &root), Ok(Some("a.cpp".into())));
    assert_eq!(object_source(&[outside(), outside()], &root), Ok(None));
    assert_eq!(object_source(&[inside(), outside()], &root), Err(DwarfError::Ambiguous));
}

fn entry(name: Option<&str>, specification: Origin, abstract_origin: Origin) -> EntryFact {
    EntryFact {
        linkage_name: name.map(|name| Some(name.to_string())),
        mips_linkage_name: None,
        specification,
        abstract_origin,
    }
}

#[test]
fn linkage_names_follow_their_origins() {
    let entries = HashMap::from([
        (1, entry(None, Origin::Absent, Origin::Entry(2))),
        (2, entry(None, Origin::Entry(3), Origin::Outside)),
        (3, entry(Some("_Z1fv"), Origin::Absent, Origin::Absent)),
        (4, entry(None, Origin::Entry(4), Origin::Absent)),
        (5, entry(None, Origin::Outside, Origin::Absent)),
        (6, entry(None, Origin::Absent, Origin::Absent)),
        (7, entry(None, Origin::Entry(8), Origin::Absent)),
    ]);
    assert_eq!(linkage(&entries, 1, 0), Ok(Some("_Z1fv".to_string())));
    assert_eq!(linkage(&entries, 4, 0), Err(DwarfError::TooDeep));
    assert_eq!(linkage(&entries, 5, 0), Err(DwarfError::OriginOutside));
    assert_eq!(linkage(&entries, 6, 0), Ok(None));
    assert_eq!(linkage(&entries, 7, 0), Err(DwarfError::NoEntry(8)));
}

fn code(name: &str, rva: u64) -> CodeSymbol {
    CodeSymbol { name: name.to_string(), rva, flags: FLAG_CODE, ordinary: true }
}

fn names(aliases: &[ManifestSymbol]) -> Vec<(String, u64)> {
    aliases.iter().map(|alias| (alias.name.clone(), alias.rva)).collect()
}

#[test]
fn elf_functions_get_aliases_of_their_units() {
    let root = root();
    let symbols = sort_code(&[code("_Z1gv", 0x200), code("_Z1fv", 0x100), code("f_alias", 0x100)]);
    assert_eq!(symbols.iter().map(|s| s.rva).collect::<Vec<_>>(), [0x100, 0x100, 0x200]);
    assert_eq!(symbols[0].name, "_Z1fv");
    let entries = HashMap::from([
        (1, entry(Some("_Z1fv"), Origin::Absent, Origin::Absent)),
        (2, entry(None, Origin::Absent, Origin::Absent)),
    ]);
    let units = [UnitCode {
        unit: unit(Language::Code(4), "src/a.cpp"),
        subprograms: vec![
            Subprogram { at: 1, ranges: vec![(0x1100, 0x1110), (0, 0x2000)] },
            Subprogram { at: 2, ranges: vec![(0x1200, 0x1201), (0x1300, 0x1300)] },
        ],
    }];
    let aliases = elf_aliases(&units, &entries, &root, &symbols, 0x1000).unwrap();
    assert_eq!(
        names(&aliases),
        [("src/a.cpp#f".to_string(), 0x100), ("src/a.cpp#g".to_string(), 0x200)]
    );
    assert_eq!(
        elf_aliases(&[], &entries, &root, &symbols, 0).err(),
        Some(DwarfError::NoDebugInfo)
    );
}

const TEXT_SYMBOL: u8 = 0x0f;

fn debug_image() -> Vec<u8> {
    let stab = |name, kind, section, value| MachSymbol { name, kind, section, value };
    macho_file(
        2,
        &[
            stab("/game/src/a.cpp", 0x64, 0, 0),
            stab("/game/a.o", 0x66, 0, 0),
            stab("__Z1fv", 0x24, 1, BASE + 0x1000),
            stab("", 0x24, 0, 0x10),
            stab("", 0x64, 1, 0),
            stab("/game/lib.a(b.o)", 0x66, 0, 0),
            stab("_g", 0x24, 1, BASE + 0x1010),
            stab("", 0x24, 0, 0x10),
            stab("__Z1fv", TEXT_SYMBOL, 1, BASE + 0x1000),
            stab("_g", TEXT_SYMBOL, 1, BASE + 0x1010),
        ],
    )
}

fn mapped(symbols: &[&'static str], unit: UnitFact, entries: &[(&str, u64)]) -> MappedObject {
    let symbols: Vec<MachSymbol> = symbols
        .iter()
        .map(|name| MachSymbol { name, kind: TEXT_SYMBOL, section: 1, value: BASE + 0x1000 })
        .collect();
    MappedObject {
        data: macho_file(1, &symbols),
        units: vec![unit],
        mapped: entries
            .iter()
            .map(|(name, address)| MapEntry { name: name.as_bytes().to_vec(), address: *address })
            .collect(),
    }
}

#[test]
fn debug_maps_are_read() {
    let map = apple::read_map(&debug_image()).unwrap();
    assert_eq!(map.len(), 2);
    assert_eq!(map[0].path, b"/game/a.o");
    assert_eq!(map[0].member, None);
    assert_eq!((map[0].name.as_slice(), map[0].address), (&b"__Z1fv"[..], BASE + 0x1000));
    assert_eq!(map[1].path, b"/game/lib.a");
    assert_eq!(map[1].member.as_deref(), Some(&b"b.o"[..]));
    assert_eq!(apple::read_map(&macho_file(2, &[])).err(), Some(AppleError::NoObjectMap));
}

#[test]
fn mapped_functions_get_aliases_of_their_objects() {
    let root = root();
    let image = debug_image();
    let code = sort_code(&[code("_Z1fv", BASE + 0x1000), code("g", BASE + 0x1010)]);
    let cpp = || unit(Language::Code(4), "src/a.cpp");
    let address = BASE + 0x1000;
    let objects = [
        mapped(&["__Z1fv", "_g"], cpp(), &[("__Z1fv", address), ("_gone", address)]),
        mapped(&["_g"], unit(Language::Code(4), "/b.cpp"), &[("_g", BASE + 0x1010)]),
    ];
    let aliases = apple::aliases(&image, &objects, &root, &code).unwrap();
    assert_eq!(names(&aliases), [("src/a.cpp#f".to_string(), address)]);

    let fails = |object: MappedObject| apple::aliases(&image, &[object], &root, &code).err();
    let mut broken = mapped(&[], cpp(), &[]);
    broken.data = b"no object".to_vec();
    assert_eq!(fails(broken), Some(AppleError::BadObject(0)));
    let mut foreign = mapped(&[], cpp(), &[]);
    foreign.data[4..8].copy_from_slice(&0x0100_0007u32.to_le_bytes());
    assert_eq!(fails(foreign), Some(AppleError::Architecture(0)));
    let mut empty = mapped(&[], cpp(), &[]);
    empty.units.clear();
    assert_eq!(fails(empty), Some(AppleError::Source(0, DwarfError::NoUnits)));
    assert_eq!(
        apple::aliases(b"no image", &[], &root, &code).err(),
        Some(AppleError::BadBinary)
    );
}

#[test]
fn archive_members_are_selected_by_name() {
    let wanted = vec![b"a.o".to_vec(), b"b.o".to_vec()];
    let found = apple::select_members(
        &archive(&[("b.o", b"beta"), ("c.o", b"gamma"), ("a.o", b"alpha"), ("b.o", b"more")]),
        &wanted,
    )
    .unwrap();
    assert_eq!(
        found,
        [(1, b"beta".to_vec()), (0, b"alpha".to_vec()), (1, b"more".to_vec())]
    );
    let fails = |data: &[u8]| apple::select_members(data, &wanted).err();
    assert_eq!(fails(&archive(&[("a.o", b"alpha")])), Some(AppleError::MissingMember(1)));
    assert_eq!(fails(b"no archive"), Some(AppleError::BadArchive));
    assert_eq!(fails(b"!<thin>\n"), Some(AppleError::ThinArchive));
    let mut cut = archive(&[("a.o", b"alpha"), ("b.o", b"beta")]);
    cut.extend_from_slice(b"short header");
    assert_eq!(fails(&cut), Some(AppleError::BadMember));
}

fn cpp_flags() -> ModuleSymbol {
    ModuleSymbol::CompileFlags { c_or_cpp: true, version: "Microsoft (R)".to_string() }
}

#[test]
fn modules_are_owned_by_their_build_info() {
    let root = root();
    let mut info = BuildInfo::default();
    info.arguments.insert(5, vec![1, 0, 2, 0, 0]);
    info.arguments.insert(6, vec![1, 0]);
    info.strings.insert(1, (None, "/game".to_string()));
    info.strings.insert(2, (None, "src/a.cpp".to_string()));
    let told = |symbols: &[ModuleSymbol]| info.source(symbols, &root);
    assert!(matches!(
        told(&[cpp_flags(), ModuleSymbol::BuildInfo(5)]),
        Ok(Primary::Known(Some(path))) if path == "src/a.cpp"
    ));
    assert!(matches!(told(&[cpp_flags()]), Ok(Primary::Files)));
    assert!(matches!(told(&[]), Ok(Primary::Known(None))));
    let rust =
        ModuleSymbol::CompileFlags { c_or_cpp: true, version: "clang LLVM (RustC 1.80)".to_string() };
    assert!(matches!(told(&[rust, ModuleSymbol::BuildInfo(5)]), Ok(Primary::Known(None))));
    assert_eq!(told(&[ModuleSymbol::Procedure]).err(), Some(ProvenanceError::NoLanguage));
    assert_eq!(
        told(&[cpp_flags(), ModuleSymbol::BuildInfo(9)]).err(),
        Some(ProvenanceError::MissingBuildInfo)
    );
    assert_eq!(
        told(&[cpp_flags(), ModuleSymbol::BuildInfo(6)]).err(),
        Some(ProvenanceError::FewArguments)
    );
    let mut lists = BuildInfo::default();
    lists.strings.insert(1, (Some(4), String::new()));
    assert_eq!(lists.string(1, 0), Err(ProvenanceError::MissingList));
    assert_eq!(lists.string(3, 0), Err(ProvenanceError::MissingString(3)));
    assert_eq!(lists.string(0, 0), Ok(String::new()));
}

#[test]
fn modules_are_owned_by_their_only_source() {
    let root = root();
    let files = |names: &[&str]| {
        let names: Vec<String> = names.iter().map(|name| name.to_string()).collect();
        source_of_files(&names, &root)
    };
    assert_eq!(
        files(&["/game/a.h", "/game/a.CPP", "/game/a.CPP"]),
        Ok(Some("a.CPP".to_string()))
    );
    assert_eq!(files(&["/x/a.c", "/y/b.c"]), Ok(None));
    assert_eq!(files(&["/x/a.c", "/game/b.c"]), Err(ProvenanceError::NoPrimarySource(2)));
    assert_eq!(files(&[]), Err(ProvenanceError::NoPrimarySource(0)));
    assert!(is_source_file("a.c++"));
    assert!(is_source_file("CC"));
    assert!(!is_source_file("a.hpp"));
}
